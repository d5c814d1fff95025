//! The path model.
//!
//! Paths are plain strings here; joining is string concatenation with a `/`
//! separator, exactly what the launcher does to derive every location it
//! touches.  All fixed locations of a scope — the `.cmd` marker directory,
//! the `scripts` subdirectory, the `index.json` file, and the relative path
//! of a generated script — are defined once in this module.

use vstd::prelude::*;
use vstd::string::StrSliceExecFns;
use vstd::string::StringExecFns;

verus! {

/// `base` and `rel` joined with a single `/` between them.
pub open spec fn join_path_spec(base: Seq<char>, rel: Seq<char>) -> Seq<char> {
    base + "/"@ + rel
}

/// Joins a relative path onto a base directory.
pub fn join_path(base: &str, rel: &str) -> (r: String)
    ensures
        r@ == join_path_spec(base@, rel@),
{
    let mut s = base.to_owned();
    s.append("/");
    s.append(rel);
    s
}

/// `<root>/.cmd`, the marker directory of a scope.
pub open spec fn cmd_dir_spec(root: Seq<char>) -> Seq<char> {
    join_path_spec(root, ".cmd"@)
}

/// The marker directory of the scope rooted at `root`.
pub fn cmd_dir_path(root: &str) -> (r: String)
    ensures
        r@ == cmd_dir_spec(root@),
{
    join_path(root, ".cmd")
}

/// `<root>/.cmd/scripts`, where generated scripts of a scope live.
pub open spec fn scripts_dir_spec(root: Seq<char>) -> Seq<char> {
    join_path_spec(cmd_dir_spec(root), "scripts"@)
}

/// The scripts directory of the scope rooted at `root`.
pub fn scripts_dir_path(root: &str) -> (r: String)
    ensures
        r@ == scripts_dir_spec(root@),
{
    let d = cmd_dir_path(root);
    join_path(d.as_str(), "scripts")
}

/// `<root>/.cmd/index.json`, the persisted registry of a scope.
pub open spec fn index_file_spec(root: Seq<char>) -> Seq<char> {
    join_path_spec(cmd_dir_spec(root), "index.json"@)
}

/// The index file of the scope rooted at `root`.
pub fn index_file_path(root: &str) -> (r: String)
    ensures
        r@ == index_file_spec(root@),
{
    let d = cmd_dir_path(root);
    join_path(d.as_str(), "index.json")
}

/// `./.cmd/scripts/<alias>.sh`, the relative path every newly registered
/// alias is given.
pub open spec fn script_rel_spec(alias: Seq<char>) -> Seq<char> {
    "./.cmd/scripts/"@ + alias + ".sh"@
}

/// The relative path of the script generated for `alias`.
pub fn script_rel_path(alias: &str) -> (r: String)
    ensures
        r@ == script_rel_spec(alias@),
{
    let mut s = "./.cmd/scripts/".to_owned();
    s.append(alias);
    s.append(".sh");
    s
}

/// The two-line template a newly created script is filled with.
pub fn script_template() -> (r: String)
    ensures
        r@ == "#!/usr/bin/env sh\n\necho \"Hello world\"\n"@,
{
    "#!/usr/bin/env sh\n\necho \"Hello world\"\n".to_owned()
}

#[verifier::external_type_specification]
#[verifier::external_body]
pub struct ExPathBuf(std::path::PathBuf);

/// Relies on std's `PathBuf::into_os_string` and `OsString::into_string`:
/// a path that is valid Unicode becomes the string of its characters.
/// This is the boundary conversion: the front end turns every path the OS
/// hands it into the plain strings this library works on, and stops with a
/// diagnostic on a path that is not Unicode, as unconvertible.
#[verifier::external_body]
pub fn path_to_str(path: &std::path::PathBuf) -> (r: String) {
    path.to_owned().into_os_string().into_string().expect("unable to convert path to string")
}

/// The position of the last `/` in `s`, if any.
pub open spec fn last_slash_spec(s: Seq<char>) -> Option<int>
    decreases s.len(),
{
    if s.len() == 0 {
        None
    } else if s[s.len() - 1] == '/' {
        Some(s.len() - 1)
    } else {
        last_slash_spec(s.take(s.len() - 1))
    }
}

/// The directory one step above `s`, as the ancestor walk sees it: the part
/// before the last `/` (just `/` itself when that slash leads the path), and
/// nothing once `s` is the filesystem root or has no separator left.
pub open spec fn parent_dir_spec(s: Seq<char>) -> Option<Seq<char>> {
    match last_slash_spec(s) {
        Option::None => Option::None,
        Option::Some(k) => if s.len() == 1 {
            Option::None
        } else if k == 0 {
            Option::Some("/"@)
        } else {
            Option::Some(s.take(k))
        },
    }
}

proof fn lemma_last_slash_found(s: Seq<char>, k: int)
    requires
        0 <= k < s.len(),
        s[k] == '/',
        forall|j: int| k < j < s.len() ==> s[j] != '/',
    ensures
        last_slash_spec(s) == Some(k),
    decreases s.len(),
{
    if s.len() - 1 > k {
        assert(s.take(s.len() - 1)[k] == '/');
        lemma_last_slash_found(s.take(s.len() - 1), k);
    }
}

proof fn lemma_last_slash_absent(s: Seq<char>)
    requires
        forall|j: int| 0 <= j < s.len() ==> s[j] != '/',
    ensures
        last_slash_spec(s) is None,
    decreases s.len(),
{
    if s.len() > 0 {
        lemma_last_slash_absent(s.take(s.len() - 1));
    }
}

/// The directory one step above `s`, per [`parent_dir_spec`].
pub fn parent_dir(s: &str) -> (r: Option<String>)
    ensures
        match r {
            Option::Some(p) => parent_dir_spec(s@) matches Option::Some(q) && p@ == q,
            Option::None => parent_dir_spec(s@) is None,
        },
{
    let n = s.unicode_len();
    let mut i = n;
    while i > 0
        invariant
            i <= n,
            n == s@.len(),
            forall|j: int| i <= j < n ==> s@[j] != '/',
        decreases i,
    {
        if s.get_char(i - 1) == '/' {
            proof {
                lemma_last_slash_found(s@, i - 1);
            }
            if n == 1 {
                return Option::None;
            }
            if i - 1 == 0 {
                return Option::Some("/".to_owned());
            }
            let p = s.substring_char(0, i - 1);
            return Option::Some(p.to_owned());
        }
        i = i - 1;
    }
    proof {
        lemma_last_slash_absent(s@);
    }
    Option::None
}

} // verus!
