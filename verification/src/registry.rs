//! The alias registry: one scope's commands and the operations on them.
//!
//! A registry is an ordered list of entries; lookup is a linear scan where
//! the first match wins.  Aliases are meant to be unique inside one registry
//! — `add` refuses a duplicate — but nothing forbids the same alias in the
//! global and the local registry at once: the first loaded group wins when
//! both are searched together.

use vstd::prelude::*;
use crate::paths::join_path;
use crate::paths::join_path_spec;
use crate::scope::Scope;
use crate::scope::ScopeKind;
use crate::scope::ScopeView;

verus! {

/// An entry as it is persisted: the triple the index file stores.
#[derive(Debug)]
pub struct JsonCmd {
    pub alias: String,
    pub rel_path: String,
    pub description: String,
}

/// Mathematical image of a persisted entry.
#[verifier::ext_equal]
pub struct CmdModel {
    pub alias: Seq<char>,
    pub rel_path: Seq<char>,
    pub description: Seq<char>,
}

impl View for JsonCmd {
    type V = CmdModel;

    open spec fn view(&self) -> CmdModel {
        CmdModel { alias: self.alias@, rel_path: self.rel_path@, description: self.description@ }
    }
}

/// A registered alias, bound to its scope: the persisted triple plus the
/// derived absolute path of the backing script.
#[derive(Debug)]
pub struct Cmd {
    pub alias: String,
    pub rel_path: String,
    pub description: String,
    pub abs_path: String,
    pub scope: Scope,
}

/// Mathematical image of a bound entry.
#[verifier::ext_equal]
pub struct CmdView {
    pub alias: Seq<char>,
    pub rel_path: Seq<char>,
    pub description: Seq<char>,
    pub abs_path: Seq<char>,
    pub scope: ScopeView,
}

impl CmdView {
    /// The part of the entry that the index file keeps.
    pub open spec fn persisted(self) -> CmdModel {
        CmdModel { alias: self.alias, rel_path: self.rel_path, description: self.description }
    }

    /// The derived field really is derived: the absolute path is the scope
    /// root joined with the relative path.
    pub open spec fn wf(self) -> bool {
        self.abs_path == join_path_spec(self.scope.path, self.rel_path)
    }
}

impl View for Cmd {
    type V = CmdView;

    open spec fn view(&self) -> CmdView {
        CmdView {
            alias: self.alias@,
            rel_path: self.rel_path@,
            description: self.description@,
            abs_path: self.abs_path@,
            scope: self.scope@,
        }
    }
}

impl JsonCmd {
    /// Binds a persisted entry to `scope`, deriving the absolute path of its
    /// script from the scope root.
    pub fn to_cmd(&self, scope: &Scope) -> (r: Cmd)
        ensures
            r@.persisted() == self@,
            r@.scope == scope@,
            r@.wf(),
    {
        Cmd {
            alias: self.alias.clone(),
            rel_path: self.rel_path.clone(),
            description: self.description.clone(),
            abs_path: join_path(scope.path.as_str(), self.rel_path.as_str()),
            scope: scope.dup(),
        }
    }
}

impl Cmd {
    /// Builds a bound entry from its parts.
    pub fn new(alias: &String, rel_path: &String, description: &String, scope: &Scope) -> (r: Cmd)
        ensures
            r@.alias == alias@,
            r@.rel_path == rel_path@,
            r@.description == description@,
            r@.scope == scope@,
            r@.wf(),
    {
        JsonCmd {
            alias: alias.clone(),
            rel_path: rel_path.clone(),
            description: description.clone(),
        }.to_cmd(scope)
    }

    /// An explicit copy; the clone carries the same entry.
    pub fn dup(&self) -> (r: Cmd)
        ensures
            r@ == self@,
    {
        Cmd {
            alias: self.alias.clone(),
            rel_path: self.rel_path.clone(),
            description: self.description.clone(),
            abs_path: self.abs_path.clone(),
            scope: self.scope.dup(),
        }
    }
}

impl From<&Cmd> for JsonCmd {
    /// Strips a bound entry back to its persisted triple.
    fn from(item: &Cmd) -> (r: JsonCmd) {
        JsonCmd {
            alias: item.alias.clone(),
            rel_path: item.rel_path.clone(),
            description: item.description.clone(),
        }
    }
}

impl vstd::std_specs::convert::FromSpecImpl<&Cmd> for JsonCmd {
    open spec fn obeys_from_spec() -> bool {
        true
    }

    open spec fn from_spec(t: &Cmd) -> JsonCmd {
        JsonCmd {
            alias: t.alias,
            rel_path: t.rel_path,
            description: t.description,
        }
    }
}

/// Some entry of `cmds` carries `alias`.
pub open spec fn has_alias(cmds: Seq<CmdView>, alias: Seq<char>) -> bool {
    exists|i: int| 0 <= i < cmds.len() && cmds[i].alias == alias
}

/// Position `i` holds the first entry of `cmds` carrying `alias`.
pub open spec fn first_match(cmds: Seq<CmdView>, alias: Seq<char>, i: int) -> bool {
    &&& 0 <= i < cmds.len()
    &&& cmds[i].alias == alias
    &&& forall|j: int| 0 <= j < i ==> cmds[j].alias != alias
}

/// `cmds` with every entry carrying `alias` taken out, order kept.
pub open spec fn remove_alias_spec(cmds: Seq<CmdView>, alias: Seq<char>) -> Seq<CmdView>
    decreases cmds.len(),
{
    if cmds.len() == 0 {
        Seq::empty()
    } else {
        let rest = remove_alias_spec(cmds.drop_last(), alias);
        if cmds.last().alias == alias {
            rest
        } else {
            rest.push(cmds.last())
        }
    }
}

/// No two entries of `cmds` carry the same alias.
pub open spec fn aliases_unique(cmds: Seq<CmdView>) -> bool {
    forall|i: int, j: int| 0 <= i < j < cmds.len() ==> cmds[i].alias != cmds[j].alias
}

/// The in-memory registry of one scope: its entries in insertion order.
#[derive(Debug)]
pub struct CmdGroup {
    pub commands: Vec<Cmd>,
    pub scope: Scope,
}

/// Mathematical image of a registry.
#[verifier::ext_equal]
pub struct GroupView {
    pub commands: Seq<CmdView>,
    pub scope: ScopeView,
}

impl View for CmdGroup {
    type V = GroupView;

    open spec fn view(&self) -> GroupView {
        GroupView {
            commands: Seq::new(self.commands@.len(), |i: int| self.commands@[i]@),
            scope: self.scope@,
        }
    }
}

impl CmdGroup {
    /// The first entry carrying `alias`, scanning in insertion order.
    pub fn find_by_alias(&self, alias: &String) -> (r: Option<&Cmd>)
        ensures
            match r {
                Option::Some(c) => exists|i: int|
                    #[trigger] first_match(self@.commands, alias@, i) && c@ == self@.commands[i],
                Option::None => !has_alias(self@.commands, alias@),
            },
    {
        let n = self.commands.len();
        let mut i: usize = 0;
        while i < n
            invariant
                i <= n,
                n == self.commands.len(),
                forall|j: int| 0 <= j < i ==> self@.commands[j].alias != alias@,
            decreases n - i,
        {
            if self.commands[i].alias == *alias {
                proof {
                    assert(first_match(self@.commands, alias@, i as int));
                }
                return Option::Some(&self.commands[i]);
            }
            i = i + 1;
        }
        Option::None
    }

    /// Appends `entry`, unless its alias is already present; reports whether
    /// the append happened.  Never disturbs the existing entries, and keeps
    /// aliases unique.
    pub fn add(&mut self, entry: Cmd) -> (added: bool)
        ensures
            added == !has_alias(old(self)@.commands, entry@.alias),
            added ==> final(self)@.commands == old(self)@.commands.push(entry@),
            !added ==> *final(self) == *old(self),
            final(self)@.commands == apply_op(old(self)@.commands, RegOp::Add(entry@)),
            final(self)@.scope == old(self)@.scope,
            aliases_unique(old(self)@.commands) ==> aliases_unique(final(self)@.commands),
    {
        let present = self.find_by_alias(&entry.alias).is_some();
        if present {
            false
        } else {
            let ghost before = self@.commands;
            self.commands.push(entry);
            proof {
                assert(final(self)@.commands =~= before.push(entry@));
                if aliases_unique(before) {
                    let after = before.push(entry@);
                    assert forall|i: int, j: int| 0 <= i < j < after.len() implies after[i].alias
                        != after[j].alias by {
                        if j == after.len() - 1 {
                            assert(!has_alias(before, entry@.alias));
                            assert(before[i].alias != entry@.alias);
                        }
                    }
                }
            }
            true
        }
    }

    /// Drops every entry carrying `alias`; reports whether anything was
    /// dropped, so the caller knows whether the index file needs rewriting.
    pub fn remove(&mut self, alias: &String) -> (removed: bool)
        ensures
            removed == has_alias(old(self)@.commands, alias@),
            final(self)@.commands == remove_alias_spec(old(self)@.commands, alias@),
            final(self)@.commands == apply_op(old(self)@.commands, RegOp::Remove(alias@)),
            !removed ==> *final(self) == *old(self),
            final(self)@.scope == old(self)@.scope,
            aliases_unique(old(self)@.commands) ==> aliases_unique(final(self)@.commands),
    {
        let found = self.find_by_alias(alias).is_some();
        proof {
            lemma_remove_preserves_unique(self@.commands, alias@);
        }
        if !found {
            proof {
                lemma_remove_absent(self@.commands, alias@);
            }
            return false;
        }
        let ghost before = self@.commands;
        let mut kept: Vec<Cmd> = Vec::new();
        let n = self.commands.len();
        let mut i: usize = 0;
        while i < n
            invariant
                i <= n,
                n == self.commands.len(),
                before == self@.commands,
                kept@.len() <= i,
                Seq::new(kept@.len(), |k: int| kept@[k]@) == remove_alias_spec(
                    before.take(i as int),
                    alias@,
                ),
            decreases n - i,
        {
            let ghost prefix = before.take(i as int);
            let c = &self.commands[i];
            if !(c.alias == *alias) {
                kept.push(c.dup());
            }
            proof {
                assert(before.take(i + 1 as int).drop_last() =~= prefix);
                assert(before.take(i + 1 as int).last() == before[i as int]);
                assert(Seq::new(kept@.len(), |k: int| kept@[k]@) =~= remove_alias_spec(
                    before.take(i + 1 as int),
                    alias@,
                ));
            }
            i = i + 1;
        }
        proof {
            assert(before.take(n as int) =~= before);
        }
        self.commands = kept;
        proof {
            assert(final(self)@.commands =~= Seq::new(kept@.len(), |k: int| kept@[k]@));
        }
        true
    }
}

/// The persisted triples of a list of loaded entries, in order.
pub open spec fn persisted_of(cmds: Seq<CmdView>) -> Seq<CmdModel> {
    Seq::new(cmds.len(), |i: int| cmds[i].persisted())
}

/// The images of a list of registries.
pub open spec fn views_of_groups(gs: Seq<CmdGroup>) -> Seq<GroupView> {
    Seq::new(gs.len(), |i: int| gs[i]@)
}

/// Some loaded registry holds `alias`.
pub open spec fn found_in_groups(groups: Seq<GroupView>, alias: Seq<char>) -> bool {
    exists|g: int| 0 <= g < groups.len() && has_alias(groups[g].commands, alias)
}

/// Registry `g`, position `i`, holds the match that wins for `alias`: the
/// first match inside the first registry that has one at all.
pub open spec fn group_first_match(groups: Seq<GroupView>, alias: Seq<char>, g: int, i: int) -> bool {
    &&& 0 <= g < groups.len()
    &&& first_match(groups[g].commands, alias, i)
    &&& forall|h: int| 0 <= h < g ==> !has_alias(#[trigger] groups[h].commands, alias)
}

/// Resolves `alias` across every loaded registry, in load order; the first
/// registry that knows the alias answers, so when both scopes carry the
/// same alias, the order in which the caller loaded them decides which one
/// wins.  Returns a copy of the winning entry.
pub fn find_command(alias: &String, groups: &Vec<CmdGroup>) -> (r: Option<Cmd>)
    ensures
        match r {
            Option::Some(c) => exists|g: int, i: int|
                #[trigger] group_first_match(views_of_groups(groups@), alias@, g, i) && c@
                    == views_of_groups(groups@)[g].commands[i],
            Option::None => !found_in_groups(views_of_groups(groups@), alias@),
        },
{
    let n = groups.len();
    let mut g: usize = 0;
    while g < n
        invariant
            g <= n,
            n == groups.len(),
            forall|h: int|
                0 <= h < g ==> !has_alias(#[trigger] views_of_groups(groups@)[h].commands, alias@),
        decreases n - g,
    {
        match groups[g].find_by_alias(alias) {
            Option::Some(c) => {
                let out = c.dup();
                proof {
                    let i = choose|i: int|
                        #[trigger] first_match(groups@[g as int]@.commands, alias@, i) && c@
                            == groups@[g as int]@.commands[i];
                    assert(group_first_match(views_of_groups(groups@), alias@, g as int, i));
                }
                return Option::Some(out);
            },
            Option::None => {},
        }
        g = g + 1;
    }
    Option::None
}

/// The first loaded registry belonging to `scope_type`, for mutation;
/// nothing if that scope was never loaded.
pub fn get_group_mut<'a>(scope_type: &ScopeKind, groups: &'a mut Vec<CmdGroup>) -> (r: Option<
    &'a mut CmdGroup,
>)
    ensures
        match r {
            Option::Some(g) => exists|k: int|
                {
                    &&& 0 <= k < old(groups)@.len()
                    &&& #[trigger] old(groups)@[k]@.scope.kind == *scope_type
                    &&& forall|h: int| 0 <= h < k ==> old(groups)@[h]@.scope.kind != *scope_type
                    &&& *g == old(groups)@[k]
                    &&& final(groups)@ == old(groups)@.update(k, *final(g))
                },
            Option::None => {
                &&& final(groups)@ == old(groups)@
                &&& forall|h: int|
                    0 <= h < old(groups)@.len() ==> old(groups)@[h]@.scope.kind != *scope_type
            },
        },
{
    let n = groups.len();
    let mut k: usize = 0;
    while k < n
        invariant
            k <= n,
            n == groups.len(),
            groups@ == old(groups)@,
            forall|h: int| 0 <= h < k ==> groups@[h]@.scope.kind != *scope_type,
        decreases n - k,
    {
        if groups[k].scope.kind == *scope_type {
            proof {
                assert(old(groups)@.update(k as int, old(groups)@[k as int]) =~= old(groups)@);
            }
            return Option::Some(&mut groups[k]);
        }
        k = k + 1;
    }
    Option::None
}

/// One mutation of a registry, exactly as `add` and `remove` pin it down in
/// their contracts.
pub enum RegOp {
    Add(CmdView),
    Remove(Seq<char>),
}

/// What one `add` or `remove` leaves behind: `add` appends unless the alias
/// is taken, `remove` drops every carrier of the alias.
pub open spec fn apply_op(cmds: Seq<CmdView>, op: RegOp) -> Seq<CmdView> {
    match op {
        RegOp::Add(c) => if has_alias(cmds, c.alias) {
            cmds
        } else {
            cmds.push(c)
        },
        RegOp::Remove(a) => remove_alias_spec(cmds, a),
    }
}

/// A whole sequence of mutations, applied left to right.
pub open spec fn apply_ops(cmds: Seq<CmdView>, ops: Seq<RegOp>) -> Seq<CmdView>
    decreases ops.len(),
{
    if ops.len() == 0 {
        cmds
    } else {
        apply_op(apply_ops(cmds, ops.drop_last()), ops.last())
    }
}

/// `op` registers `a`.
pub open spec fn op_adds(op: RegOp, a: Seq<char>) -> bool {
    op matches RegOp::Add(c) && c.alias == a
}

/// `op` deregisters `a`.
pub open spec fn op_removes(op: RegOp, a: Seq<char>) -> bool {
    op matches RegOp::Remove(b) && b == a
}

/// Some add of `a` in `ops` is never followed by a remove of `a`.
pub open spec fn surviving_add(ops: Seq<RegOp>, a: Seq<char>) -> bool {
    exists|i: int|
        0 <= i < ops.len() && op_adds(#[trigger] ops[i], a) && (forall|j: int|
            i < j < ops.len() ==> !op_removes(#[trigger] ops[j], a))
}

/// Membership in a registry survives `drop_last` in the expected way.
proof fn lemma_has_alias_unsnoc(cmds: Seq<CmdView>, b: Seq<char>)
    requires
        cmds.len() > 0,
    ensures
        has_alias(cmds, b) <==> (has_alias(cmds.drop_last(), b) || cmds.last().alias == b),
{
    if has_alias(cmds, b) {
        let i = choose|i: int| 0 <= i < cmds.len() && cmds[i].alias == b;
        if i < cmds.len() - 1 {
            assert(cmds.drop_last()[i].alias == b);
        }
    }
    if has_alias(cmds.drop_last(), b) {
        let i = choose|i: int| 0 <= i < cmds.drop_last().len() && cmds.drop_last()[i].alias == b;
        assert(cmds[i].alias == b);
    }
}

/// What `remove` leaves holds exactly the aliases it held before, minus the
/// removed one.
proof fn lemma_remove_membership(cmds: Seq<CmdView>, alias: Seq<char>, b: Seq<char>)
    ensures
        has_alias(remove_alias_spec(cmds, alias), b) <==> (has_alias(cmds, b) && b != alias),
    decreases cmds.len(),
{
    if cmds.len() == 0 {
        assert(!has_alias(cmds, b));
        assert(!has_alias(remove_alias_spec(cmds, alias), b));
    } else {
        lemma_remove_membership(cmds.drop_last(), alias, b);
        lemma_has_alias_unsnoc(cmds, b);
        let rest = remove_alias_spec(cmds.drop_last(), alias);
        if cmds.last().alias == alias {
            assert(remove_alias_spec(cmds, alias) == rest);
        } else {
            assert(remove_alias_spec(cmds, alias) == rest.push(cmds.last()));
            if rest.push(cmds.last()).len() > 0 {
                lemma_has_alias_unsnoc(rest.push(cmds.last()), b);
                assert(rest.push(cmds.last()).drop_last() =~= rest);
                assert(rest.push(cmds.last()).last() == cmds.last());
            }
        }
    }
}

/// After any sequence of `add` and `remove` mutations on a registry that
/// started empty, the set of registered aliases is exactly the set of added
/// aliases that no later mutation removed.  Order never matters for
/// membership; it only decides which entry a lookup yields.
pub proof fn lemma_alias_set_after_ops(ops: Seq<RegOp>)
    ensures
        forall|a: Seq<char>|
            #![trigger has_alias(apply_ops(Seq::<CmdView>::empty(), ops), a)]
            #![trigger surviving_add(ops, a)]
            has_alias(apply_ops(Seq::<CmdView>::empty(), ops), a) <==> surviving_add(ops, a),
    decreases ops.len(),
{
    if ops.len() == 0 {
        assert forall|a: Seq<char>| !surviving_add(ops, a) by {}
        assert forall|a: Seq<char>| !has_alias(apply_ops(Seq::<CmdView>::empty(), ops), a) by {}
    } else {
        let ops0 = ops.drop_last();
        let op = ops.last();
        let s0 = apply_ops(Seq::<CmdView>::empty(), ops0);
        let s1 = apply_ops(Seq::<CmdView>::empty(), ops);
        lemma_alias_set_after_ops(ops0);
        assert(s1 == apply_op(s0, op));
        assert forall|a: Seq<char>| has_alias(s1, a) <==> surviving_add(ops, a) by {
            match op {
                RegOp::Add(c) => {
                    if a == c.alias {
                        assert(op_adds(ops[ops.len() - 1], a));
                        assert(surviving_add(ops, a));
                        if has_alias(s0, a) {
                            assert(s1 == s0);
                        } else {
                            assert(s1 == s0.push(c));
                            assert(s1[s0.len() as int].alias == a);
                            assert(has_alias(s1, a));
                        }
                    } else {
                        if has_alias(s0, a) {
                            let i = choose|i: int| 0 <= i < s0.len() && s0[i].alias == a;
                            assert(s1[i].alias == a);
                        }
                        if has_alias(s1, a) {
                            let i = choose|i: int| 0 <= i < s1.len() && s1[i].alias == a;
                            if !has_alias(s0, a) {
                                assert(s1 == s0.push(c));
                                assert(i == s0.len());
                                assert(s1[i].alias == c.alias);
                                assert(false);
                            }
                        }
                        if surviving_add(ops0, a) {
                            let i = choose|i: int|
                                0 <= i < ops0.len() && op_adds(#[trigger] ops0[i], a) && (forall|
                                    j: int,
                                |
                                    i < j < ops0.len() ==> !op_removes(#[trigger] ops0[j], a));
                            assert(ops[i] == ops0[i]);
                            assert forall|j: int| i < j < ops.len() implies !op_removes(
                                ops[j],
                                a,
                            ) by {
                                if j < ops.len() - 1 {
                                    assert(ops[j] == ops0[j]);
                                }
                            }
                            assert(surviving_add(ops, a));
                        }
                        if surviving_add(ops, a) {
                            let i = choose|i: int|
                                0 <= i < ops.len() && op_adds(#[trigger] ops[i], a) && (forall|
                                    j: int,
                                |
                                    i < j < ops.len() ==> !op_removes(#[trigger] ops[j], a));
                            assert(i < ops.len() - 1);
                            assert(ops0[i] == ops[i]);
                            assert forall|j: int| i < j < ops0.len() implies !op_removes(
                                ops0[j],
                                a,
                            ) by {
                                assert(ops0[j] == ops[j]);
                            }
                            assert(surviving_add(ops0, a));
                        }
                    }
                },
                RegOp::Remove(b) => {
                    lemma_remove_membership(s0, b, a);
                    if surviving_add(ops, a) {
                        let i = choose|i: int|
                            0 <= i < ops.len() && op_adds(#[trigger] ops[i], a) && (forall|j: int|
                                i < j < ops.len() ==> !op_removes(#[trigger] ops[j], a));
                        assert(i < ops.len() - 1);
                        assert(!op_removes(ops[ops.len() - 1], a));
                        assert(a != b);
                        assert(ops0[i] == ops[i]);
                        assert forall|j: int| i < j < ops0.len() implies !op_removes(
                            ops0[j],
                            a,
                        ) by {
                            assert(ops0[j] == ops[j]);
                        }
                        assert(surviving_add(ops0, a));
                    }
                    if surviving_add(ops0, a) && a != b {
                        let i = choose|i: int|
                            0 <= i < ops0.len() && op_adds(#[trigger] ops0[i], a) && (forall|
                                j: int,
                            |
                                i < j < ops0.len() ==> !op_removes(#[trigger] ops0[j], a));
                        assert(ops[i] == ops0[i]);
                        assert forall|j: int| i < j < ops.len() implies !op_removes(ops[j], a) by {
                            if j < ops.len() - 1 {
                                assert(ops[j] == ops0[j]);
                            }
                        }
                        assert(surviving_add(ops, a));
                    }
                },
            }
        }
    }
}

/// `add` of a fresh alias, then `findByAlias` of the same alias on the same
/// registry: the lookup is owed a hit, and the hit is exactly the entry just
/// added — it sits at the end and no earlier entry carries the alias.
pub proof fn lemma_add_then_find(cmds: Seq<CmdView>, c: CmdView)
    requires
        !has_alias(cmds, c.alias),
    ensures
        first_match(cmds.push(c), c.alias, cmds.len() as int),
        cmds.push(c)[cmds.len() as int] == c,
        forall|i: int| first_match(cmds.push(c), c.alias, i) ==> i == cmds.len() as int,
{
    assert forall|j: int| 0 <= j < cmds.len() implies cmds.push(c)[j].alias != c.alias by {
        assert(cmds.push(c)[j] == cmds[j]);
    }
    assert forall|i: int| first_match(cmds.push(c), c.alias, i) implies i == cmds.len() as int by {
        if i < cmds.len() {
            assert(cmds.push(c)[i].alias != c.alias);
        }
    }
}

/// Dropping an alias cannot make two remaining entries collide.
proof fn lemma_remove_preserves_unique(cmds: Seq<CmdView>, alias: Seq<char>)
    ensures
        aliases_unique(cmds) ==> aliases_unique(remove_alias_spec(cmds, alias)),
    decreases cmds.len(),
{
    if cmds.len() > 0 && aliases_unique(cmds) {
        let prefix = cmds.drop_last();
        assert(forall|i: int, j: int|
            0 <= i < j < prefix.len() ==> prefix[i].alias != prefix[j].alias);
        lemma_remove_preserves_unique(prefix, alias);
        let rest = remove_alias_spec(prefix, alias);
        if cmds.last().alias != alias {
            assert(!has_alias(prefix, cmds.last().alias)) by {
                if has_alias(prefix, cmds.last().alias) {
                    let i = choose|i: int|
                        0 <= i < prefix.len() && prefix[i].alias == cmds.last().alias;
                    assert(cmds[i].alias == cmds[cmds.len() - 1].alias);
                }
            }
            lemma_remove_membership(prefix, alias, cmds.last().alias);
            let out = rest.push(cmds.last());
            assert forall|i: int, j: int| 0 <= i < j < out.len() implies out[i].alias
                != out[j].alias by {
                if j == out.len() - 1 {
                    assert(has_alias(rest, out[i].alias)) by {
                        assert(rest[i].alias == out[i].alias);
                    }
                }
            }
        }
    }
}

/// Dropping an absent alias changes nothing.
proof fn lemma_remove_absent(cmds: Seq<CmdView>, alias: Seq<char>)
    requires
        !has_alias(cmds, alias),
    ensures
        remove_alias_spec(cmds, alias) == cmds,
    decreases cmds.len(),
{
    if cmds.len() > 0 {
        assert(forall|i: int|
            0 <= i < cmds.drop_last().len() ==> cmds.drop_last()[i] == cmds[i]);
        lemma_remove_absent(cmds.drop_last(), alias);
        assert(cmds[cmds.len() - 1].alias != alias);
        assert(remove_alias_spec(cmds, alias) =~= cmds);
    }
}

} // verus!
