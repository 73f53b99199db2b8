//! How paths are shown.

use vstd::prelude::*;

use crate::ctx::Ctx;
use crate::paths;
use crate::text;
use crate::text::concat2;

verus! {

/// A path as shown: from `~` below the home directory, from `/` below the
/// root, else as it is.
pub open spec fn shown(path: Seq<char>, root: Seq<char>, home: Seq<char>) -> Seq<char> {
    match paths::relative(path, home) {
        Some(rel) => if rel.len() == 0 {
            "~"@
        } else {
            "~/"@ + rel
        },
        None => match paths::relative(path, root) {
            Some(rel) => "/"@ + rel,
            None => path,
        },
    }
}

pub fn display_label(path: &str, ctx: &Ctx) -> (r: String)
    ensures
        r@ == shown(path@, ctx.root@, ctx.home@),
{
    match paths::relative_to(path, ctx.home.as_str()) {
        Some(rel) => if rel.as_str().is_empty() {
            "~".to_owned()
        } else {
            concat2("~/", rel.as_str())
        },
        None => match paths::relative_to(path, ctx.root.as_str()) {
            Some(rel) => concat2("/", rel.as_str()),
            None => path.to_owned(),
        },
    }
}

// ------------------------------------------------------------------------ laws


/// What lies in the home directory is shown from `~`; what lies elsewhere
/// below the root from a slash.
pub proof fn law_paths_are_shown_from_home(
    dir: Seq<char>,
    name: Seq<char>,
    root: Seq<char>,
    home: Seq<char>,
)
    requires
        paths::entry_name(name),
        dir.len() > 0,
        dir.last() != '/',
        paths::names(dir).len() > 0 ==> paths::spans(dir).last().1 == dir.len(),
    ensures
        shown(home, root, home) == "~"@,
        paths::under(dir, home) && paths::names(dir).len() == paths::names(home).len() ==> shown(
            dir + "/"@ + name,
            root,
            home,
        ) == "~/"@ + name,
        paths::under(dir, home) && paths::names(dir).len() > paths::names(home).len()
            && paths::relative(dir, home)->0.len() > 0 ==> shown(dir + "/"@ + name, root, home)
            == shown(dir, root, home) + "/"@ + name,
        !paths::under(dir + "/"@ + name, home) && paths::under(dir, root) && paths::names(
            dir,
        ).len() == paths::names(root).len() ==> shown(dir + "/"@ + name, root, home) == "/"@
            + name,
{
    reveal_strlit("/");
    assert("/"@ =~= seq!['/']);
    assert(dir + "/"@ + name =~= paths::child(dir, name));
    if paths::under(dir, home) {
        paths::law_a_child_is_seen_by_its_name(dir, name, home);
        if paths::names(dir).len() > paths::names(home).len() {
            let rel = paths::relative(dir, home)->0;
            assert("~/"@ + (rel + seq!['/'] + name) =~= "~/"@ + rel + "/"@ + name);
        }
    }
    if paths::under(dir, root) {
        paths::law_a_child_is_seen_by_its_name(dir, name, root);
    }
    assert(paths::names(home).take(paths::names(home).len() as int) =~= paths::names(home));
    assert(paths::under(home, home));
}

} // verus!
