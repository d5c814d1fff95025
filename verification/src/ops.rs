//! The decision core of each user command.
//!
//! Every handler here takes plain values — the loaded registries, the
//! resolved scope, the facts the surroundings probed — mutates the
//! registries where the command asks for it, and hands back a plan: which
//! file to write with which text, which script to create, which path to
//! open, what to spawn.  The surroundings carry the plans out and never
//! decide anything themselves.

use vstd::prelude::*;
use crate::paths::index_file_path;
use crate::paths::index_file_spec;
use crate::paths::join_path;
use crate::paths::join_path_spec;
use crate::paths::script_rel_path;
use crate::paths::script_rel_spec;
use crate::paths::script_template;
use crate::registry::Cmd;
use crate::registry::CmdGroup;
use crate::registry::CmdView;
use crate::registry::find_command;
use crate::registry::found_in_groups;
use crate::registry::group_first_match;
use crate::registry::GroupView;
use crate::registry::has_alias;
use crate::registry::persisted_of;
use crate::registry::remove_alias_spec;
use crate::registry::views_of_groups;
use crate::codec::render_index;
use crate::scope::Scope;
use crate::scope::ScopeKind;
use crate::store::save_to_string;

verus! {

/// Registry `k` is the one a mutating command on `kind` targets: the first
/// loaded registry of that scope kind.
pub open spec fn target_group(groups: Seq<GroupView>, kind: ScopeKind, k: int) -> bool {
    &&& 0 <= k < groups.len()
    &&& groups[k].scope.kind == kind
    &&& forall|h: int| 0 <= h < k ==> (#[trigger] groups[h]).scope.kind != kind
}

/// The entry `add` registers for `alias` under a scope: the fixed relative
/// path, the derived absolute one.
pub open spec fn added_entry(
    alias: Seq<char>,
    description: Seq<char>,
    scope: crate::scope::ScopeView,
) -> CmdView {
    CmdView {
        alias: alias,
        rel_path: script_rel_spec(alias),
        description: description,
        abs_path: join_path_spec(scope.path, script_rel_spec(alias)),
        scope: scope,
    }
}

/// What the surroundings must do after `add` has extended a registry:
/// rewrite the index, create the script if none is there, and open it.
#[derive(Debug)]
pub struct AddPlan {
    /// The scope's index file, and the full text to write there.
    pub index_path: String,
    pub index_text: String,
    /// The new script's absolute path, and the content to give it if no
    /// file stands there yet; it is then opened in the editor either way.
    pub script_path: String,
    pub script_template: String,
}

/// Why `add` refused and left everything untouched.
#[derive(Clone, Copy, PartialEq, Eq, Structural, Debug)]
pub enum AddError {
    /// The alias is already registered in the target registry.
    AlreadyExists,
    /// No registry of the target scope kind was loaded.
    ScopeNotLoaded,
}

/// The index of the registry a mutating command on `kind` targets.
fn find_group_index(kind: &ScopeKind, groups: &Vec<CmdGroup>) -> (r: Option<usize>)
    ensures
        match r {
            Option::Some(k) => target_group(views_of_groups(groups@), *kind, k as int),
            Option::None => forall|h: int|
                0 <= h < groups@.len() ==> (#[trigger] views_of_groups(groups@)[h]).scope.kind
                    != *kind,
        },
{
    let n = groups.len();
    let mut k: usize = 0;
    while k < n
        invariant
            k <= n,
            n == groups@.len(),
            forall|h: int|
                0 <= h < k ==> (#[trigger] views_of_groups(groups@)[h]).scope.kind != *kind,
        decreases n - k,
    {
        if groups[k].scope.kind == *kind {
            return Option::Some(k);
        }
        k = k + 1;
    }
    Option::None
}

/// The index of the first registry that carries `alias`.
fn find_group_with_alias(alias: &String, groups: &Vec<CmdGroup>) -> (r: Option<usize>)
    ensures
        match r {
            Option::Some(g) => 0 <= g < groups@.len() && has_alias(
                views_of_groups(groups@)[g as int].commands,
                alias@,
            ) && (forall|h: int|
                0 <= h < g ==> !has_alias(
                    (#[trigger] views_of_groups(groups@)[h]).commands,
                    alias@,
                )),
            Option::None => !found_in_groups(views_of_groups(groups@), alias@),
        },
{
    let n = groups.len();
    let mut g: usize = 0;
    while g < n
        invariant
            g <= n,
            n == groups@.len(),
            forall|h: int|
                0 <= h < g ==> !has_alias(
                    (#[trigger] views_of_groups(groups@)[h]).commands,
                    alias@,
                ),
        decreases n - g,
    {
        if groups[g].find_by_alias(alias).is_some() {
            return Option::Some(g);
        }
        g = g + 1;
    }
    Option::None
}

/// Registers `alias` in the registry of the resolved scope: appends the
/// entry and plans the writes.  Refuses a duplicate alias without touching
/// anything; a duplicate in the *other* scope is no obstacle.
pub fn cmd_add(alias: &String, description: &String, scope: &Scope, groups: &mut Vec<CmdGroup>) -> (r:
    Result<AddPlan, AddError>)
    ensures
        (forall|h: int|
            0 <= h < old(groups)@.len() ==> (#[trigger] views_of_groups(old(groups)@)[h]).scope.kind
                != scope@.kind) ==> r == Err::<AddPlan, AddError>(AddError::ScopeNotLoaded)
            && final(groups)@ == old(groups)@,
        forall|k: int|
            #[trigger] target_group(views_of_groups(old(groups)@), scope@.kind, k) ==> {
                let before = views_of_groups(old(groups)@);
                let after = views_of_groups(final(groups)@);
                let entry = added_entry(alias@, description@, before[k].scope);
                if has_alias(before[k].commands, alias@) {
                    r == Err::<AddPlan, AddError>(AddError::AlreadyExists) && final(groups)@
                        == old(groups)@
                } else {
                    &&& r matches Ok(plan) && {
                        &&& plan.index_path@ == index_file_spec(scope@.path)
                        &&& plan.index_text@ == render_index(
                            persisted_of(before[k].commands.push(entry)),
                        )
                        &&& plan.script_path@ == entry.abs_path
                        &&& plan.script_template@ == "#!/usr/bin/env sh\n\necho \"Hello world\"\n"@
                    }
                    &&& after.len() == before.len()
                    &&& after[k].commands == before[k].commands.push(entry)
                    &&& after[k].scope == before[k].scope
                    &&& forall|h: int|
                        0 <= h < old(groups)@.len() && h != k ==> views_of_groups(final(groups)@)[h]
                            == #[trigger] views_of_groups(old(groups)@)[h]
                }
            },
{
    let k = match find_group_index(&scope.kind, groups) {
        Option::None => {
            return Result::Err(AddError::ScopeNotLoaded);
        },
        Option::Some(k) => k,
    };
    let ghost before = views_of_groups(groups@);
    let rel = script_rel_path(alias.as_str());
    let entry = Cmd::new(alias, &rel, description, &groups[k].scope);
    let script_path = entry.abs_path.clone();
    proof {
        assert(entry@ =~= added_entry(alias@, description@, before[k as int].scope));
        assert forall|k2: int| target_group(before, scope@.kind, k2) implies k2 == k as int by {
            if k2 < k as int {
                assert(before[k2].scope.kind != scope@.kind);
            } else if k2 > k as int {
                assert(before[k as int].scope.kind != scope@.kind);
            }
        }
    }
    let grp = &mut groups[k];
    let added = grp.add(entry);
    if !added {
        proof {
            assert(old(groups)@.update(k as int, old(groups)@[k as int]) =~= old(groups)@);
        }
        return Result::Err(AddError::AlreadyExists);
    }
    let index_text = save_to_string(grp);
    let plan = AddPlan {
        index_path: index_file_path(scope.path.as_str()),
        index_text,
        script_path,
        script_template: script_template(),
    };
    Result::Ok(plan)
}

/// What the surroundings must do after `remove` has dropped an alias:
/// rewrite the owning scope's index.  The backing script is never deleted.
#[derive(Debug)]
pub struct RemovePlan {
    pub index_path: String,
    pub index_text: String,
}

/// Deregisters `alias` from the first loaded registry that carries it.
/// On an unknown alias nothing changes and no plan is issued, so nothing
/// is written.
pub fn cmd_remove(alias: &String, groups: &mut Vec<CmdGroup>) -> (r: Option<RemovePlan>)
    ensures
        !found_in_groups(views_of_groups(old(groups)@), alias@) ==> r is None && final(groups)@
            == old(groups)@,
        forall|g: int|
            (0 <= g < old(groups)@.len() && has_alias(
                (#[trigger] views_of_groups(old(groups)@)[g]).commands,
                alias@,
            ) && (forall|h: int|
                0 <= h < g ==> !has_alias(
                    (#[trigger] views_of_groups(old(groups)@)[h]).commands,
                    alias@,
                ))) ==> ({
                let before = views_of_groups(old(groups)@);
                let after = views_of_groups(final(groups)@);
                let kept = remove_alias_spec(before[g].commands, alias@);
                &&& r matches Some(plan) && {
                    &&& plan.index_path@ == index_file_spec(before[g].scope.path)
                    &&& plan.index_text@ == render_index(persisted_of(kept))
                }
                &&& after.len() == before.len()
                &&& after[g].commands == kept
                &&& after[g].scope == before[g].scope
                &&& forall|h: int|
                    0 <= h < old(groups)@.len() && h != g ==> views_of_groups(final(groups)@)[h]
                        == #[trigger] views_of_groups(old(groups)@)[h]
            }),
{
    let g = match find_group_with_alias(alias, groups) {
        Option::None => {
            return Option::None;
        },
        Option::Some(g) => g,
    };
    let ghost before = views_of_groups(groups@);
    proof {
        assert forall|g2: int|
            0 <= g2 < before.len() && has_alias(before[g2].commands, alias@) && (forall|h: int|
                0 <= h < g2 ==> !has_alias(#[trigger] before[h].commands, alias@)) implies g2
            == g as int by {
            if g2 < g as int {
                assert(!has_alias(before[g2].commands, alias@));
            } else if g2 > g as int {
                assert(!has_alias(before[g as int].commands, alias@));
            }
        }
    }
    let grp = &mut groups[g];
    grp.remove(alias);
    let index_text = save_to_string(grp);
    let index_path = index_file_path(grp.scope.path.as_str());
    Option::Some(RemovePlan { index_path, index_text })
}

/// What `edit` decides to open.
#[derive(Debug)]
pub enum EditPlan {
    /// The named alias resolved to this script.
    EditScript(String),
    /// The named alias is registered nowhere; open nothing.
    UnknownAlias,
    /// No alias was named: open the resolved scope's own index file.
    EditIndex(String),
}

/// Picks what `edit` opens: the backing script of a named alias, resolved
/// across both registries, or — with no alias named — the resolved scope's
/// `index.json` itself, never any script.
pub fn cmd_edit(some_alias: Option<&String>, scope: &Scope, cmd_groups: &Vec<CmdGroup>) -> (r:
    EditPlan)
    ensures
        match some_alias {
            Option::Some(a) => {
                if found_in_groups(views_of_groups(cmd_groups@), a@) {
                    r matches EditPlan::EditScript(p) && exists|g: int, i: int|
                        #[trigger] group_first_match(views_of_groups(cmd_groups@), a@, g, i) && p@
                            == views_of_groups(cmd_groups@)[g].commands[i].abs_path
                } else {
                    r is UnknownAlias
                }
            },
            Option::None => r matches EditPlan::EditIndex(p) && p@ == index_file_spec(scope@.path),
        },
{
    match some_alias {
        Option::Some(alias) => {
            match find_command(alias, cmd_groups) {
                Option::Some(command) => EditPlan::EditScript(command.abs_path),
                Option::None => EditPlan::UnknownAlias,
            }
        },
        Option::None => EditPlan::EditIndex(index_file_path(scope.path.as_str())),
    }
}

/// What a bare-alias invocation does.
#[derive(Debug)]
pub enum InvokePlan {
    /// Spawn the script, with the user's arguments, from the scope root.
    Run { program: String, args: Vec<String>, cwd: String },
    /// The registered script is gone from disk: report the dangling alias
    /// and spawn nothing.
    Dangling { alias: String, rel_path: String },
}

/// Decides a dispatch of the resolved `command`: the caller reports whether
/// the backing script still exists on disk.  A present script is run — the
/// scope root joined with the registered relative path, the user's
/// arguments handed through unchanged, the scope root as working directory.
/// A missing one is only reported.
pub fn plan_invoke(command: &Cmd, args: Vec<String>, script_exists: bool) -> (r: InvokePlan)
    ensures
        script_exists ==> (r matches InvokePlan::Run { program, args: a, cwd } && program@
            == join_path_spec(command@.scope.path, command@.rel_path) && a == args && cwd@
            == command@.scope.path),
        !script_exists ==> (r matches InvokePlan::Dangling { alias, rel_path } && alias@
            == command@.alias && rel_path@ == command@.rel_path),
{
    if script_exists {
        let program = join_path(command.scope.path.as_str(), command.rel_path.as_str());
        let cwd = command.scope.path.clone();
        InvokePlan::Run { program, args, cwd }
    } else {
        InvokePlan::Dangling { alias: command.alias.clone(), rel_path: command.rel_path.clone() }
    }
}

} // verus!
