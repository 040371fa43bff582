//! Install scripts that run outside the Nix sandbox.
use vstd::prelude::*;

use crate::json::{Json, JsonView};
use crate::text::{pieces, split, starts_with, Text};

verus! {

/// What an entry of `node_modules` is, by its name.
#[derive(Clone, Copy, Debug, PartialEq, Eq, Structural)]
pub enum Sibling {
    /// Not a package, such as `.bin`.
    Other,
    /// A directory of packages.
    Scope,
    Package,
}

/// What the entry called `name` is.
pub open spec fn sibling_of(name: Text) -> Sibling {
    if "."@.is_prefix_of(name) {
        Sibling::Other
    } else if "@"@.is_prefix_of(name) {
        Sibling::Scope
    } else {
        Sibling::Package
    }
}

/// The text under `key` in an object.
pub open spec fn text_member(value: JsonView, key: Text) -> Option<Text> {
    match crate::json::member(value, key) {
        Some(JsonView::String(text)) => Some(text),
        _ => None,
    }
}

/// The script for `event` in a manifest.
pub open spec fn script_of(manifest: JsonView, event: Text) -> Seq<(Text, Text)> {
    match crate::json::member(manifest, "scripts"@) {
        Some(scripts) => match text_member(scripts, event) {
            Some(script) => seq![(event, script)],
            None => Seq::empty(),
        },
        None => Seq::empty(),
    }
}

/// The install scripts in a manifest, in the order in which they run.
pub open spec fn install_scripts_of(manifest: JsonView) -> Seq<(Text, Text)> {
    script_of(manifest, "preinstall"@) + script_of(manifest, "install"@) + script_of(manifest, "postinstall"@)
}

fn push_script(manifest: &Json, event: &str, scripts: &mut Vec<(String, String)>)
    ensures
        final(scripts).deep_view() == old(scripts).deep_view() + script_of(manifest@, event@),
{
    let ghost before = scripts.deep_view();
    if let Some(all) = manifest.get("scripts") {
        if let Some(Json::String(script)) = all.get(event) {
            scripts.push((event.to_owned(), script.clone()));
            assert(scripts.deep_view() =~= before + seq![(event@, script@)]);
            return;
        }
    }
    assert(scripts.deep_view() =~= before + Seq::<(Text, Text)>::empty());
}

/// The install scripts in a manifest, in the order in which they run.
pub fn install_scripts(manifest: &Json) -> (result: Vec<(String, String)>)
    ensures
        result.deep_view() == install_scripts_of(manifest@),
{
    let mut scripts: Vec<(String, String)> = Vec::new();
    push_script(manifest, "preinstall", &mut scripts);
    push_script(manifest, "install", &mut scripts);
    push_script(manifest, "postinstall", &mut scripts);
    assert(scripts.deep_view() =~= install_scripts_of(manifest@));
    scripts
}

/// How many directories above a package its `node_modules` is.
pub fn depth(name: &str) -> (result: usize)
    ensures
        result == pieces(name@, '/').len(),
{
    let parts = split(name, '/');
    assert(parts.deep_view().len() == parts@.len());
    parts.len()
}

/// What the entry called `name` is.
pub fn sibling(name: &str) -> (result: Sibling)
    ensures
        result == sibling_of(name@),
{
    if starts_with(name, ".") {
        Sibling::Other
    } else if starts_with(name, "@") {
        Sibling::Scope
    } else {
        Sibling::Package
    }
}

/// `event` is one at which an install script runs.
pub open spec fn is_install_event(event: Text) -> bool {
    event == "preinstall"@ || event == "install"@ || event == "postinstall"@
}

/// Just the scripts in a manifest that are for installing run: each that there is, with what is written
/// there, and those before installing first and those after it last.
pub proof fn install_scripts_run(manifest: JsonView, event: Text, script: Text)
    ensures
        install_scripts_of(manifest).contains((event, script)) <==> is_install_event(event) && (crate::json::member(
            manifest,
            "scripts"@,
        ) matches Some(scripts) && crate::json::member(scripts, event) == Some(JsonView::String(script))),
        forall|i: int, j: int|
            0 <= i < j < install_scripts_of(manifest).len() ==> (#[trigger] install_scripts_of(manifest)[j]).0
                != "preinstall"@ && (#[trigger] install_scripts_of(manifest)[i]).0 != "postinstall"@,
{
    reveal_strlit("preinstall");
    reveal_strlit("install");
    reveal_strlit("postinstall");
    assert("preinstall"@.len() == 10 && "install"@.len() == 7 && "postinstall"@.len() == 11);
    let (a, b, c) = (
        script_of(manifest, "preinstall"@),
        script_of(manifest, "install"@),
        script_of(manifest, "postinstall"@),
    );
    let all = install_scripts_of(manifest);
    if is_install_event(event) && (crate::json::member(manifest, "scripts"@) matches Some(scripts)
        && crate::json::member(scripts, event) == Some(JsonView::String(script))) {
        let at: int = if event == "preinstall"@ {
            0
        } else if event == "install"@ {
            a.len() as int
        } else {
            (a.len() + b.len()) as int
        };
        assert(all[at] == (event, script));
    }
    if all.contains((event, script)) {
        let i = all.index_of((event, script));
        if i < a.len() {
            assert(all[i] == a[i]);
        } else if i < a.len() + b.len() {
            assert(all[i] == b[i - a.len()]);
        } else {
            assert(all[i] == c[i - a.len() - b.len()]);
        }
    }
}

} // verus!
