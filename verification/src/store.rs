//! The registry store: between one scope's loaded registry and the text of
//! its index file.
//!
//! The surroundings read and write the file itself; this module turns its
//! text into a bound registry and a registry back into text.  A missing
//! file never reaches this module — that is the legitimate "scope not yet
//! populated" state — while a text that does not parse is reported as a
//! [`ParseError`].

use vstd::prelude::*;
use crate::codec::ParseError;
use crate::codec::models_of;
use crate::codec::parse_index;
use crate::codec::render_index;
use crate::codec::serialize_index;
use crate::codec::spec_parse_index;
use crate::registry::Cmd;
use crate::registry::CmdGroup;
use crate::registry::JsonCmd;
use crate::registry::persisted_of;
use crate::scope::Scope;

verus! {

impl CmdGroup {
    /// Loads one scope's registry from its index text: every persisted
    /// entry, in file order, bound to `scope`.
    pub fn new(scope: &Scope, index_text: &str) -> (r: Result<CmdGroup, ParseError>)
        ensures
            match spec_parse_index(index_text@) {
                Option::Some(es) => r matches Ok(g) && {
                    &&& g@.scope == scope@
                    &&& persisted_of(g@.commands) == es
                    &&& forall|i: int|
                        0 <= i < g@.commands.len() ==> (#[trigger] g@.commands[i]).wf()
                            && g@.commands[i].scope == scope@
                },
                Option::None => r is Err,
            },
    {
        let entries = match parse_index(index_text) {
            Result::Ok(v) => v,
            Result::Err(e) => {
                return Result::Err(e);
            },
        };
        let mut commands: Vec<Cmd> = Vec::new();
        let n = entries.len();
        let mut i: usize = 0;
        while i < n
            invariant
                i <= n,
                n == entries@.len(),
                commands@.len() == i,
                forall|k: int|
                    0 <= k < i ==> (#[trigger] commands@[k]@).persisted() == entries@[k]@
                        && commands@[k]@.scope == scope@ && commands@[k]@.wf(),
            decreases n - i,
        {
            commands.push(entries[i].to_cmd(scope));
            i = i + 1;
        }
        let g = CmdGroup { commands, scope: scope.dup() };
        proof {
            assert(persisted_of(g@.commands) =~= models_of(entries@));
        }
        Result::Ok(g)
    }
}

/// Lays a registry out as its index text, ready to be written back: the
/// persisted triples only, never the derived fields.
pub fn save_to_string(cmd_group: &CmdGroup) -> (r: String)
    ensures
        r@ == render_index(persisted_of(cmd_group@.commands)),
{
    let mut json: Vec<JsonCmd> = Vec::new();
    let n = cmd_group.commands.len();
    let mut i: usize = 0;
    while i < n
        invariant
            i <= n,
            n == cmd_group.commands@.len(),
            json@.len() == i,
            forall|k: int| 0 <= k < i ==> (#[trigger] json@[k])@ == cmd_group@.commands[k].persisted(),
        decreases n - i,
    {
        json.push(JsonCmd::from(&cmd_group.commands[i]));
        i = i + 1;
    }
    proof {
        assert(models_of(json@) =~= persisted_of(cmd_group@.commands));
    }
    serialize_index(&json)
}

} // verus!
