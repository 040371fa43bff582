//! What Nix is asked for, and what is made of its answers.
use vstd::prelude::*;

use crate::dict::{sorted, sorted_properties, Dict, Duplicate};
use crate::error::Error;
use crate::json::{Json, JsonView};
use crate::lock::{Nixpkgs, NixpkgsView};
use crate::text::{
    cat, cat3, cut_at_first, decimal, join, joined, joined_is_parted, number, pieces, same, split_once, Text,
};

verus! {

/// The name of the lockfile of a flake.
pub const FLAKE_LOCK: &'static str = "flake.lock";

/// An input of a flake.
#[derive(Debug, PartialEq, Eq)]
pub struct FlakeNode {
    pub inputs: Dict<Json>,
    pub locked: Option<Dict<Json>>,
}

/// What a `FlakeNode` means.
#[verifier::ext_equal]
pub struct FlakeNodeView {
    pub inputs: Map<Text, JsonView>,
    pub locked: Option<Map<Text, JsonView>>,
}

impl View for FlakeNode {
    type V = FlakeNodeView;

    open spec fn view(&self) -> FlakeNodeView {
        FlakeNodeView {
            inputs: self.inputs.deep_view(),
            locked: self.locked.deep_view(),
        }
    }
}

impl DeepView for FlakeNode {
    type V = FlakeNodeView;

    open spec fn deep_view(&self) -> FlakeNodeView {
        self@
    }
}

/// The lockfile of a flake.
#[derive(Debug, PartialEq, Eq)]
pub struct FlakeLock {
    pub nodes: Dict<FlakeNode>,
    pub root: String,
}

/// What a `FlakeLock` means.
#[verifier::ext_equal]
pub struct FlakeLockView {
    pub nodes: Map<Text, FlakeNodeView>,
    pub root: Text,
}

impl View for FlakeLock {
    type V = FlakeLockView;

    open spec fn view(&self) -> FlakeLockView {
        FlakeLockView {
            nodes: self.nodes.deep_view(),
            root: self.root.deep_view(),
        }
    }
}

impl DeepView for FlakeLock {
    type V = FlakeLockView;

    open spec fn deep_view(&self) -> FlakeLockView {
        self@
    }
}

/// What is locked leads to a path on this machine.
pub open spec fn is_local(locked: Map<Text, JsonView>) -> bool {
    locked.contains_key("type"@) && locked["type"@] == JsonView::String("path"@)
}

/// What can be locked of `locked`: nothing for local paths, which other machines cannot fetch.
pub open spec fn shared(flake_ref: Text, locked: Map<Text, JsonView>) -> Option<NixpkgsView> {
    if is_local(locked) {
        None
    } else {
        // Internal to Nix, which refuses it in `builtins.fetchTree`.
        Some(NixpkgsView { from: flake_ref, locked: locked.remove("__final"@) })
    }
}

/// What can be locked of `locked`. `None` for local paths, which other machines cannot fetch.
pub fn shareable(flake_ref: &str, locked: Dict<Json>) -> (result: Option<Nixpkgs>)
    ensures
        result.deep_view() == shared(flake_ref@, locked@),
{
    let mut locked = locked;
    if let Some(Json::String(kind)) = locked.get("type") {
        if same(kind.as_str(), "path") {
            return None;
        }
    }
    let _ = locked.remove("__final");
    Some(Nixpkgs { from: flake_ref.to_owned(), locked })
}

/// What Nixpkgs is locked to where `flake_ref` locks to `locked`.
pub fn lock_nixpkgs(flake_ref: &str, locked: Dict<Json>) -> (result: Result<Nixpkgs, Error>)
    ensures
        match result {
            Ok(nixpkgs) => shared(flake_ref@, locked@) == Some(nixpkgs@),
            Err(error) => shared(flake_ref@, locked@) is None && error@ == seq![
                flake_ref@ + " locks to a local path, which other machines cannot fetch"@,
            ],
        },
{
    match shareable(flake_ref, locked) {
        Some(nixpkgs) => Ok(nixpkgs),
        None => Err(Error::new(cat(flake_ref, " locks to a local path, which other machines cannot fetch"))),
    }
}

impl FlakeLockView {
    /// What the `nixpkgs` input is locked to. Inputs that follow others are lists, and ignored.
    pub open spec fn nixpkgs(self) -> Option<Map<Text, JsonView>> {
        let inputs = self.nodes[self.root].inputs;
        if self.nodes.contains_key(self.root) && inputs.contains_key("nixpkgs"@) && inputs["nixpkgs"@] is String
            && self.nodes.contains_key(inputs["nixpkgs"@]->String_0) {
            self.nodes[inputs["nixpkgs"@]->String_0].locked
        } else {
            None
        }
    }
}

/// The `nixpkgs` input of the flake whose lockfile at `path` is `flake`.
pub fn flake_lock_nixpkgs(path: &str, flake: &FlakeLock) -> (result: Result<Option<Nixpkgs>, Error>)
    ensures
        match result {
            Ok(None) => flake@.nixpkgs() is None,
            Ok(Some(nixpkgs)) => flake@.nixpkgs() is Some && shared("flake.lock"@, flake@.nixpkgs()->0) == Some(
                nixpkgs@,
            ),
            Err(error) => flake@.nixpkgs() is Some && is_local(flake@.nixpkgs()->0) && error@ == seq![
                "the nixpkgs input in "@ + path@ + " is a local path, which other machines cannot fetch"@,
            ],
        },
{
    let root = match flake.nodes.get(flake.root.as_str()) {
        Some(root) => root,
        None => {
            return Ok(None);
        },
    };
    let name = match root.inputs.get("nixpkgs") {
        Some(Json::String(name)) => name,
        _ => {
            return Ok(None);
        },
    };
    let locked = match flake.nodes.get(name.as_str()) {
        Some(node) => match &node.locked {
            Some(locked) => locked.duplicate(),
            None => {
                return Ok(None);
            },
        },
        None => {
            return Ok(None);
        },
    };
    match shareable(FLAKE_LOCK, locked) {
        Some(nixpkgs) => Ok(Some(nixpkgs)),
        None => Err(
            Error::new(
                cat3("the nixpkgs input in ", path, " is a local path, which other machines cannot fetch"),
            ),
        ),
    }
}

/// The features that Nix needs: `builtins.fetchTree` needs flakes.
pub open spec fn features() -> Seq<Text> {
    seq!["--extra-experimental-features"@, "nix-command flakes"@]
}

/// The arguments on caches to download from.
pub open spec fn substituter_arguments(substituters: Map<Text, Text>) -> Seq<Text> {
    let urls = sorted(substituters.dom());
    if substituters == Map::<Text, Text>::empty() {
        Seq::empty()
    } else {
        seq![
            "--extra-substituters"@,
            joined(urls, " "@),
            "--extra-trusted-public-keys"@,
            joined(urls.map_values(|url: Text| substituters[url]), " "@),
        ]
    }
}

/// What is evaluated to build a workspace. The directory with what is built is read only through its
/// hash, which is what evaluation without outside access allows, and `nix_support/install.nix` in it
/// gets those of the arguments that it asks for.
pub const INSTALL: &'static str =
    "{ source, narHash, ... }@arguments: let install = import (builtins.fetchTree { type = \"path\"; path = source; inherit narHash; } + \"/nix_support/install.nix\"); in install (builtins.intersectAttrs (builtins.functionArgs install) arguments)";

/// Makes Nix evaluate without access to the environment or to files outside the store. It holds as
/// long as what is evaluated is no `--file`, which would lift it.
pub const PURE: &'static str = "--pure-eval";

/// The arguments with which Nix builds the workspace in `source`, whose hash is `hash`.
pub open spec fn build_arguments_for(
    out_link: Text,
    source: Text,
    hash: Text,
    system: Text,
    dev: bool,
    node_major: Option<u32>,
    substituters: Map<Text, Text>,
) -> Seq<Text> {
    seq!["build"@] + features() + seq![
        PURE@,
        "--print-out-paths"@,
        "--out-link"@,
        out_link,
        "--expr"@,
        INSTALL@,
        "--argstr"@,
        "source"@,
        source,
        "--argstr"@,
        "narHash"@,
        hash,
        "--argstr"@,
        "system"@,
        system,
        "--arg"@,
        "dev"@,
        if dev {
            "true"@
        } else {
            "false"@
        },
    ] + (match node_major {
        Some(major) => seq!["--arg"@, "nodeMajor"@, decimal(major as nat)],
        None => Seq::empty(),
    }) + substituter_arguments(substituters)
}

/// The arguments with which Nix lists the versions of Node.js in the Nixpkgs that is locked as the JSON
/// text `locked`, by evaluating `expression`.
pub open spec fn node_arguments_for(expression: Text, locked: Text, system: Text) -> Seq<Text> {
    seq!["eval"@] + features() + seq![
        PURE@,
        "--json"@,
        "--expr"@,
        expression,
        "--argstr"@,
        "nixpkgs"@,
        locked,
        "--argstr"@,
        "system"@,
        system,
    ]
}

/// `option` is followed by one value.
pub open spec fn takes_value(option: Text) -> bool {
    ||| option == "--extra-experimental-features"@
    ||| option == "--out-link"@
    ||| option == "--expr"@
    ||| option == "--extra-substituters"@
    ||| option == "--extra-trusted-public-keys"@
}

/// What stands at `i` is the value of an option, which Nix does not read as an option of its own.
pub open spec fn is_value(arguments: Seq<Text>, i: int) -> bool {
    ||| i >= 1 && takes_value(arguments[i - 1])
    ||| i >= 2 && (arguments[i - 2] == "--arg"@ || arguments[i - 2] == "--argstr"@)
}

/// `option` gives evaluation outside access.
pub open spec fn lifts_purity(option: Text) -> bool {
    option == "--impure"@ || option == "--file"@
}

/// Nix evaluates without outside access: it is told to, and what would lift that stands nowhere but as
/// the value of an option.
pub open spec fn is_pure(arguments: Seq<Text>) -> bool {
    &&& exists|i: int| 0 <= i < arguments.len() && #[trigger] arguments[i] == PURE@ && !is_value(arguments, i)
    &&& forall|i: int| 0 <= i < arguments.len() && lifts_purity(#[trigger] arguments[i]) ==> is_value(arguments, i)
}

proof fn fixed_texts_differ()
    ensures
        !lifts_purity("build"@),
        !lifts_purity("eval"@),
        !lifts_purity("--extra-experimental-features"@),
        !lifts_purity(PURE@),
        !lifts_purity("--print-out-paths"@),
        !lifts_purity("--out-link"@),
        !lifts_purity("--expr"@),
        !lifts_purity("--argstr"@),
        !lifts_purity("--arg"@),
        !lifts_purity("--json"@),
        !lifts_purity("source"@),
        !lifts_purity("narHash"@),
        !lifts_purity("system"@),
        !lifts_purity("nixpkgs"@),
        !lifts_purity("dev"@),
        !lifts_purity("nodeMajor"@),
        !lifts_purity("--extra-substituters"@),
        !lifts_purity("--extra-trusted-public-keys"@),
        !takes_value("nix-command flakes"@),
        "--extra-experimental-features"@ != "--arg"@,
        "--extra-experimental-features"@ != "--argstr"@,
{
    reveal_strlit("--impure");
    reveal_strlit("--file");
    assert("--impure"@.len() == 8 && "--impure"@[2] == 'i');
    assert("--file"@.len() == 6 && "--file"@[2] == 'f');
    reveal_strlit("build");
    assert("build"@.len() == 5);
    reveal_strlit("eval");
    assert("eval"@.len() == 4);
    reveal_strlit("--extra-experimental-features");
    assert("--extra-experimental-features"@.len() == 29);
    reveal_strlit("nix-command flakes");
    assert("nix-command flakes"@.len() == 18);
    reveal_strlit("--pure-eval");
    assert("--pure-eval"@.len() == 11);
    reveal_strlit("--print-out-paths");
    assert("--print-out-paths"@.len() == 17);
    reveal_strlit("--out-link");
    assert("--out-link"@.len() == 10);
    reveal_strlit("--expr");
    assert("--expr"@.len() == 6);
    assert("--expr"@[2] == 'e');
    reveal_strlit("--argstr");
    assert("--argstr"@.len() == 8);
    assert("--argstr"@[2] == 'a');
    reveal_strlit("--arg");
    assert("--arg"@.len() == 5);
    reveal_strlit("--json");
    assert("--json"@.len() == 6);
    assert("--json"@[2] == 'j');
    reveal_strlit("source");
    assert("source"@.len() == 6);
    assert("source"@[2] == 'u');
    reveal_strlit("narHash");
    assert("narHash"@.len() == 7);
    reveal_strlit("system");
    assert("system"@.len() == 6);
    assert("system"@[2] == 's');
    reveal_strlit("nixpkgs");
    assert("nixpkgs"@.len() == 7);
    reveal_strlit("dev");
    assert("dev"@.len() == 3);
    reveal_strlit("nodeMajor");
    assert("nodeMajor"@.len() == 9);
    reveal_strlit("--extra-substituters");
    assert("--extra-substituters"@.len() == 20);
    reveal_strlit("--extra-trusted-public-keys");
    assert("--extra-trusted-public-keys"@.len() == 27);
}

/// Whatever a project asks for, workspaces are built by evaluation without outside access.
pub proof fn builds_are_pure(
    out_link: Text,
    source: Text,
    hash: Text,
    system: Text,
    dev: bool,
    node_major: Option<u32>,
    substituters: Map<Text, Text>,
)
    ensures
        is_pure(build_arguments_for(out_link, source, hash, system, dev, node_major, substituters)),
{
    let arguments = build_arguments_for(out_link, source, hash, system, dev, node_major, substituters);
    fixed_texts_differ();
    let rest = match node_major {
        Some(major) => seq!["--arg"@, "nodeMajor"@, decimal(major as nat)],
        None => Seq::empty(),
    };
    let caches = substituter_arguments(substituters);
    assert(arguments[3] == PURE@ && !is_value(arguments, 3));
    assert forall|i: int|
        0 <= i < arguments.len() && lifts_purity(#[trigger] arguments[i]) implies is_value(arguments, i) by {
        if i >= 21 {
            let k = i - 21;
            assert(arguments.skip(21) =~= rest + caches);
            assert(arguments[i] == (rest + caches)[k]);
            assert(k >= 1 ==> arguments[i - 1] == (rest + caches)[k - 1]);
            assert(k >= 2 ==> arguments[i - 2] == (rest + caches)[k - 2]);
        } else {
            reveal_strlit("true");
            reveal_strlit("false");
            assert(arguments[5] == "--out-link"@);
            assert(arguments[7] == "--expr"@);
            assert(arguments[9] == "--argstr"@);
            assert(arguments[12] == "--argstr"@);
            assert(arguments[15] == "--argstr"@);
            assert(arguments[18] == "--arg"@);
        }
    }
}

/// Whichever Nixpkgs a project chooses, its versions of Node.js are listed by evaluation without
/// outside access.
pub proof fn listing_node_is_pure(expression: Text, locked: Text, system: Text)
    ensures
        is_pure(node_arguments_for(expression, locked, system)),
{
    let arguments = node_arguments_for(expression, locked, system);
    fixed_texts_differ();
    assert(arguments[3] == PURE@ && !is_value(arguments, 3));
    assert forall|i: int|
        0 <= i < arguments.len() && lifts_purity(#[trigger] arguments[i]) implies is_value(arguments, i) by {
        assert(arguments[5] == "--expr"@);
        assert(arguments[7] == "--argstr"@);
        assert(arguments[10] == "--argstr"@);
    }
}

fn push_substituters(arguments: &mut Vec<String>, substituters: &Dict<String>)
    ensures
        final(arguments).deep_view() == old(arguments).deep_view() + substituter_arguments(substituters@),
{
    let ghost before = arguments.deep_view();
    if substituters.is_empty() {
        assert(arguments.deep_view() =~= before + Seq::<Text>::empty());
        return;
    }
    let n: usize = substituters.len();
    let ghost keys = sorted(substituters@.dom());
    let mut urls: Vec<String> = Vec::new();
    let mut signers: Vec<String> = Vec::new();
    let mut i: usize = 0;
    while i < n
        invariant
            i <= n,
            n == keys.len(),
            keys == sorted(substituters@.dom()),
            urls@.len() == i,
            signers@.len() == i,
            forall|j: int| 0 <= j < i ==> (#[trigger] urls@[j])@ == keys[j],
            forall|j: int| 0 <= j < i ==> (#[trigger] signers@[j])@ == substituters@[keys[j]],
        decreases n - i,
    {
        urls.push(substituters.key(i).clone());
        signers.push(substituters.value(i).clone());
        i += 1;
    }
    assert(urls.deep_view() =~= keys);
    assert(signers.deep_view() =~= keys.map_values(|url: Text| substituters@[url]));
    arguments.push("--extra-substituters".to_owned());
    arguments.push(join(&urls, " "));
    arguments.push("--extra-trusted-public-keys".to_owned());
    arguments.push(join(&signers, " "));
    assert(arguments.deep_view() =~= before + substituter_arguments(substituters@));
}

/// The arguments with which Nix builds a workspace. Nix ignores the substituters, with a warning,
/// unless the user is trusted or they are trusted substituters.
pub fn build_arguments(
    out_link: &str,
    source: &str,
    hash: &str,
    system: &str,
    dev: bool,
    node_major: Option<u32>,
    substituters: &Dict<String>,
) -> (result: Vec<String>)
    ensures
        result.deep_view() == build_arguments_for(out_link@, source@, hash@, system@, dev, node_major, substituters@),
{
    let mut arguments: Vec<String> = Vec::new();
    arguments.push("build".to_owned());
    arguments.push("--extra-experimental-features".to_owned());
    arguments.push("nix-command flakes".to_owned());
    arguments.push(PURE.to_owned());
    arguments.push("--print-out-paths".to_owned());
    arguments.push("--out-link".to_owned());
    arguments.push(out_link.to_owned());
    arguments.push("--expr".to_owned());
    arguments.push(INSTALL.to_owned());
    arguments.push("--argstr".to_owned());
    arguments.push("source".to_owned());
    arguments.push(source.to_owned());
    arguments.push("--argstr".to_owned());
    arguments.push("narHash".to_owned());
    arguments.push(hash.to_owned());
    arguments.push("--argstr".to_owned());
    arguments.push("system".to_owned());
    arguments.push(system.to_owned());
    arguments.push("--arg".to_owned());
    arguments.push("dev".to_owned());
    arguments.push(
        if dev {
            "true".to_owned()
        } else {
            "false".to_owned()
        },
    );
    if let Some(major) = node_major {
        arguments.push("--arg".to_owned());
        arguments.push("nodeMajor".to_owned());
        arguments.push(number(major as u64));
    }
    push_substituters(&mut arguments, substituters);
    assert(arguments.deep_view() =~= build_arguments_for(
        out_link@,
        source@,
        hash@,
        system@,
        dev,
        node_major,
        substituters@,
    ));
    arguments
}

/// The arguments with which Nix lists the versions of Node.js in the Nixpkgs that is locked as the JSON
/// text `locked`, by evaluating `expression`.
pub fn node_arguments(expression: &str, locked: &str, system: &str) -> (result: Vec<String>)
    ensures
        result.deep_view() == node_arguments_for(expression@, locked@, system@),
{
    let mut arguments: Vec<String> = Vec::new();
    arguments.push("eval".to_owned());
    arguments.push("--extra-experimental-features".to_owned());
    arguments.push("nix-command flakes".to_owned());
    arguments.push(PURE.to_owned());
    arguments.push("--json".to_owned());
    arguments.push("--expr".to_owned());
    arguments.push(expression.to_owned());
    arguments.push("--argstr".to_owned());
    arguments.push("nixpkgs".to_owned());
    arguments.push(locked.to_owned());
    arguments.push("--argstr".to_owned());
    arguments.push("system".to_owned());
    arguments.push(system.to_owned());
    assert(arguments.deep_view() =~= node_arguments_for(expression@, locked@, system@));
    arguments
}

/// The first line of what Nix printed.
pub open spec fn first_line(output: Text) -> Option<Text> {
    match cut_at_first(output, '\n') {
        Some((line, _)) => Some(
            if line.len() > 0 && line.last() == '\r' {
                line.drop_last()
            } else {
                line
            },
        ),
        None => if output.len() == 0 {
            None
        } else {
            Some(output)
        },
    }
}

/// Where Nix built the workspace: the first line of what it printed.
pub fn built_path(output: &str) -> (result: Result<String, Error>)
    ensures
        match result {
            Ok(path) => first_line(output@) == Some(path@),
            Err(error) => first_line(output@) is None && error@ == seq!["nix build printed no output path"@],
        },
{
    match split_once(output, '\n') {
        Some((line, _)) => {
            let n: usize = vstd::string::StrSliceExecFns::unicode_len(line);
            if n > 0 && vstd::string::StrSliceExecFns::get_char(line, n - 1) == '\r' {
                assert(line@.take(n - 1) =~= line@.drop_last());
                Ok(crate::text::head(line, n - 1).to_owned())
            } else {
                Ok(line.to_owned())
            }
        },
        None => if output.is_empty() {
            Err(Error::new("nix build printed no output path".to_owned()))
        } else {
            Ok(output.to_owned())
        },
    }
}

/// The option `option` has the value `value`.
pub open spec fn has_option(arguments: Seq<Text>, option: Text, value: Text) -> bool {
    exists|i: int| 0 <= i && i + 1 < arguments.len() && #[trigger] arguments[i] == option && arguments[i + 1] == value
}

/// What is evaluated gets the argument `name`, as a text or as an expression, with the value `value`.
pub open spec fn has_argument(arguments: Seq<Text>, kind: Text, name: Text, value: Text) -> bool {
    exists|i: int|
        0 <= i && i + 2 < arguments.len() && #[trigger] arguments[i] == kind && arguments[i + 1] == name && arguments[i
            + 2] == value
}

/// A build is of the source with its hash, for the system, with what is needed for development or not
/// and for the Node.js that it is to be for, and leaves a link where it is asked to.
pub proof fn builds_what_is_asked(
    out_link: Text,
    source: Text,
    hash: Text,
    system: Text,
    dev: bool,
    node_major: Option<u32>,
    substituters: Map<Text, Text>,
)
    ensures
        ({
            let arguments = build_arguments_for(out_link, source, hash, system, dev, node_major, substituters);
            &&& arguments[0] == "build"@
            &&& has_option(arguments, "--out-link"@, out_link)
            &&& has_argument(arguments, "--argstr"@, "source"@, source)
            &&& has_argument(arguments, "--argstr"@, "narHash"@, hash)
            &&& has_argument(arguments, "--argstr"@, "system"@, system)
            &&& dev ==> has_argument(arguments, "--arg"@, "dev"@, "true"@)
            &&& !dev ==> has_argument(arguments, "--arg"@, "dev"@, "false"@)
            &&& node_major matches Some(major) ==> has_argument(
                arguments,
                "--arg"@,
                "nodeMajor"@,
                decimal(major as nat),
            )
            &&& arguments.contains("--print-out-paths"@)
        }),
{
    let arguments = build_arguments_for(out_link, source, hash, system, dev, node_major, substituters);
    assert(arguments[4] == "--print-out-paths"@);
    assert(arguments[5] == "--out-link"@ && arguments[6] == out_link);
    assert(arguments[9] == "--argstr"@ && arguments[10] == "source"@ && arguments[11] == source);
    assert(arguments[12] == "--argstr"@ && arguments[13] == "narHash"@ && arguments[14] == hash);
    assert(arguments[15] == "--argstr"@ && arguments[16] == "system"@ && arguments[17] == system);
    assert(arguments[18] == "--arg"@ && arguments[19] == "dev"@);
    if let Some(major) = node_major {
        assert(arguments[21] == "--arg"@ && arguments[22] == "nodeMajor"@ && arguments[23] == decimal(major as nat));
    }
}

/// Every cache of a project is downloaded from and its key is trusted, wherever a space cannot be taken
/// for the end of one.
pub proof fn caches_are_used(
    out_link: Text,
    source: Text,
    hash: Text,
    system: Text,
    dev: bool,
    node_major: Option<u32>,
    substituters: Map<Text, Text>,
)
    requires
        substituters.dom().finite(),
        forall|url: Text| #[trigger]
            substituters.contains_key(url) ==> !url.contains(' ') && !substituters[url].contains(' '),
    ensures
        forall|url: Text| #[trigger]
            substituters.contains_key(url) ==> {
                let arguments = build_arguments_for(out_link, source, hash, system, dev, node_major, substituters);
                &&& exists|value: Text| #[trigger]
                    has_option(arguments, "--extra-substituters"@, value) && pieces(value, ' ').contains(url)
                &&& exists|value: Text| #[trigger]
                    has_option(arguments, "--extra-trusted-public-keys"@, value) && pieces(value, ' ').contains(
                        substituters[url],
                    )
            },
{
    let arguments = build_arguments_for(out_link, source, hash, system, dev, node_major, substituters);
    let urls = sorted(substituters.dom());
    let keys = urls.map_values(|url: Text| substituters[url]);
    sorted_properties(substituters.dom());
    reveal_strlit(" ");
    assert(" "@ =~= seq![' ']);
    assert forall|url: Text| #[trigger] substituters.contains_key(url) implies {
        &&& exists|value: Text| #[trigger]
            has_option(arguments, "--extra-substituters"@, value) && pieces(value, ' ').contains(url)
        &&& exists|value: Text| #[trigger]
            has_option(arguments, "--extra-trusted-public-keys"@, value) && pieces(value, ' ').contains(
                substituters[url],
            )
    } by {
        assert(urls.contains(url));
        let at = urls.index_of(url);
        assert(substituters != Map::<Text, Text>::empty());
        assert forall|i: int| 0 <= i < urls.len() implies !(#[trigger] urls[i]).contains(' ') by {
            assert(urls.contains(urls[i]));
            assert(substituters.contains_key(urls[i]));
        }
        assert forall|i: int| 0 <= i < keys.len() implies !(#[trigger] keys[i]).contains(' ') by {
            assert(urls.contains(urls[i]));
            assert(substituters.contains_key(urls[i]));
        }
        joined_is_parted(urls, ' ');
        joined_is_parted(keys, ' ');
        assert(keys[at] == substituters[url]);
        let start: int = if node_major is Some {
            24
        } else {
            21
        };
        let caches = substituter_arguments(substituters);
        assert(caches.len() == 4);
        assert(arguments[start] == caches[0] && arguments[start + 1] == caches[1]);
        assert(arguments[start + 2] == caches[2] && arguments[start + 3] == caches[3]);
        assert(has_option(arguments, "--extra-substituters"@, joined(urls, " "@)));
        assert(has_option(arguments, "--extra-trusted-public-keys"@, joined(keys, " "@)));
    }
}

/// Whatever Nix says of what it locked is kept, all but what is internal to it, unless it is a path on
/// this machine, of which nothing is locked.
pub proof fn locked_is_kept(flake_ref: Text, locked: Map<Text, JsonView>, key: Text)
    ensures
        shared(flake_ref, locked) is None <==> locked.contains_key("type"@) && locked["type"@] == JsonView::String(
            "path"@,
        ),
        shared(flake_ref, locked) matches Some(nixpkgs) ==> {
            &&& nixpkgs.from == flake_ref
            &&& key != "__final"@ ==> (nixpkgs.locked.contains_key(key) <==> locked.contains_key(key))
            &&& nixpkgs.locked.contains_key(key) ==> nixpkgs.locked[key] == locked[key]
            &&& !nixpkgs.locked.contains_key("__final"@)
        },
{
}

} // verus!
