//! What the registry knows of a package.
use vstd::prelude::*;
use vstd::slice::*;
use vstd::string::*;
use vstd::utf8::*;

use crate::dict::{Dict, Duplicate};
use crate::error::Error;
use crate::json::{Json, JsonView};
use crate::text::{cat, cat3, chars, head, replace, replaced, Text};
use crate::time::{parse_time, parsed_time, Timestamp};
use crate::util::{hash, hex_of, sha256_of};

verus! {

/// The registry that packages come from unless another one is named.
pub const DEFAULT_REGISTRY: &'static str = "https://registry.npmjs.org";

/// All versions of one package.
#[derive(Debug, PartialEq, Eq)]
pub struct Packument {
    pub dist_tags: Dict<String>,
    /// Read one by one, since some old versions are malformed.
    pub versions: Dict<Release>,
    /// When anything here last changed.
    pub modified: Option<String>,
    /// When each version was published.
    pub time: Dict<String>,
}

/// What a `Packument` means.
#[verifier::ext_equal]
pub struct PackumentView {
    pub dist_tags: Map<Text, Text>,
    pub versions: Map<Text, ReleaseView>,
    pub modified: Option<Text>,
    pub time: Map<Text, Text>,
}

impl View for Packument {
    type V = PackumentView;

    open spec fn view(&self) -> PackumentView {
        PackumentView {
            dist_tags: self.dist_tags.deep_view(),
            versions: self.versions.deep_view(),
            modified: self.modified.deep_view(),
            time: self.time.deep_view(),
        }
    }
}

impl DeepView for Packument {
    type V = PackumentView;

    open spec fn deep_view(&self) -> PackumentView {
        self@
    }
}

impl Duplicate for Packument {
    fn duplicate(&self) -> (result: Self) {
        Packument {
            dist_tags: self.dist_tags.duplicate(),
            versions: self.versions.duplicate(),
            modified: self.modified.duplicate(),
            time: self.time.duplicate(),
        }
    }
}

/// One version of a package, as far as it can be read.
#[derive(Debug, PartialEq, Eq)]
pub struct Release {
    pub manifest: Option<VersionManifest>,
    /// Why there is no manifest.
    pub problem: String,
    /// Whether it is known to have an install script, manifest or not.
    pub install_script: bool,
}

/// What a `Release` means.
#[verifier::ext_equal]
pub struct ReleaseView {
    pub manifest: Option<VersionManifestView>,
    pub problem: Text,
    pub install_script: bool,
}

impl View for Release {
    type V = ReleaseView;

    open spec fn view(&self) -> ReleaseView {
        ReleaseView {
            manifest: self.manifest.deep_view(),
            problem: self.problem.deep_view(),
            install_script: self.install_script.deep_view(),
        }
    }
}

impl DeepView for Release {
    type V = ReleaseView;

    open spec fn deep_view(&self) -> ReleaseView {
        self@
    }
}

impl Duplicate for Release {
    fn duplicate(&self) -> (result: Self) {
        Release {
            manifest: self.manifest.duplicate(),
            problem: self.problem.duplicate(),
            install_script: self.install_script,
        }
    }
}

/// The manifest of one version.
#[derive(Debug, PartialEq, Eq)]
pub struct VersionManifest {
    pub dependencies: Dict<String>,
    pub optional_dependencies: Dict<String>,
    pub peer_dependencies: Dict<String>,
    pub peer_dependencies_meta: Dict<PeerMeta>,
    pub bin: Json,
    pub directories: Json,
    pub dist: Dist,
    pub os: Option<Vec<String>>,
    pub cpu: Option<Vec<String>>,
    pub libc: Option<Vec<String>>,
    pub has_install_script: bool,
}

/// What a `VersionManifest` means.
#[verifier::ext_equal]
pub struct VersionManifestView {
    pub dependencies: Map<Text, Text>,
    pub optional_dependencies: Map<Text, Text>,
    pub peer_dependencies: Map<Text, Text>,
    pub peer_dependencies_meta: Map<Text, PeerMetaView>,
    pub bin: JsonView,
    pub directories: JsonView,
    pub dist: DistView,
    pub os: Option<Seq<Text>>,
    pub cpu: Option<Seq<Text>>,
    pub libc: Option<Seq<Text>>,
    pub has_install_script: bool,
}

impl View for VersionManifest {
    type V = VersionManifestView;

    open spec fn view(&self) -> VersionManifestView {
        VersionManifestView {
            dependencies: self.dependencies.deep_view(),
            optional_dependencies: self.optional_dependencies.deep_view(),
            peer_dependencies: self.peer_dependencies.deep_view(),
            peer_dependencies_meta: self.peer_dependencies_meta.deep_view(),
            bin: self.bin.deep_view(),
            directories: self.directories.deep_view(),
            dist: self.dist.deep_view(),
            os: self.os.deep_view(),
            cpu: self.cpu.deep_view(),
            libc: self.libc.deep_view(),
            has_install_script: self.has_install_script.deep_view(),
        }
    }
}

impl DeepView for VersionManifest {
    type V = VersionManifestView;

    open spec fn deep_view(&self) -> VersionManifestView {
        self@
    }
}

impl Duplicate for VersionManifest {
    fn duplicate(&self) -> (result: Self) {
        VersionManifest {
            dependencies: self.dependencies.duplicate(),
            optional_dependencies: self.optional_dependencies.duplicate(),
            peer_dependencies: self.peer_dependencies.duplicate(),
            peer_dependencies_meta: self.peer_dependencies_meta.duplicate(),
            bin: self.bin.duplicate(),
            directories: self.directories.duplicate(),
            dist: self.dist.duplicate(),
            os: self.os.duplicate(),
            cpu: self.cpu.duplicate(),
            libc: self.libc.duplicate(),
            has_install_script: self.has_install_script,
        }
    }
}

/// What is said of a peer dependency.
#[derive(Debug, PartialEq, Eq)]
pub struct PeerMeta {
    pub optional: bool,
}

/// What a `PeerMeta` means.
#[verifier::ext_equal]
pub struct PeerMetaView {
    pub optional: bool,
}

impl View for PeerMeta {
    type V = PeerMetaView;

    open spec fn view(&self) -> PeerMetaView {
        PeerMetaView {
            optional: self.optional.deep_view(),
        }
    }
}

impl DeepView for PeerMeta {
    type V = PeerMetaView;

    open spec fn deep_view(&self) -> PeerMetaView {
        self@
    }
}

impl Duplicate for PeerMeta {
    fn duplicate(&self) -> (result: Self) {
        PeerMeta {
            optional: self.optional,
        }
    }
}

/// Where a version can be downloaded.
#[derive(Debug, PartialEq, Eq)]
pub struct Dist {
    pub tarball: String,
    pub integrity: Option<String>,
}

/// What a `Dist` means.
#[verifier::ext_equal]
pub struct DistView {
    pub tarball: Text,
    pub integrity: Option<Text>,
}

impl View for Dist {
    type V = DistView;

    open spec fn view(&self) -> DistView {
        DistView {
            tarball: self.tarball.deep_view(),
            integrity: self.integrity.deep_view(),
        }
    }
}

impl DeepView for Dist {
    type V = DistView;

    open spec fn deep_view(&self) -> DistView {
        self@
    }
}

impl Duplicate for Dist {
    fn duplicate(&self) -> (result: Self) {
        Dist {
            tarball: self.tarball.duplicate(),
            integrity: self.integrity.duplicate(),
        }
    }
}

/// Where packages are looked up.
pub trait Registry {
    /// `answer` is something that may be fetched for `names`.
    open spec fn may_fetch(&self, names: Seq<Text>, answer: Result<Seq<PackumentView>, Seq<Text>>) -> bool {
        true
    }

    /// `answer` is something that may be cached for `names`.
    open spec fn may_cache(&self, names: Seq<Text>, answer: Seq<Option<PackumentView>>) -> bool {
        true
    }

    /// Returns packuments in the order of `names`.
    fn fetch(&self, names: &Vec<String>) -> (result: Result<Vec<Packument>, Error>)
        ensures
            self.may_fetch(names.deep_view(), fetched_view(result)),
    ;

    /// Returns previously fetched packuments in the order of `names`, which may be outdated.
    fn cached(&self, names: &Vec<String>) -> (result: Vec<Option<Packument>>)
        ensures
            self.may_cache(names.deep_view(), result.deep_view()),
    ;
}

/// What a cache that holds nothing gives for `n` names.
pub open spec fn nothing_cached(n: nat) -> Seq<Option<PackumentView>> {
    Seq::new(n, |i: int| None)
}

/// What a registry that keeps no cache gives for `names`.
pub fn cache_nothing(names: &Vec<String>) -> (result: Vec<Option<Packument>>)
    ensures
        result.deep_view() == nothing_cached(names@.len()),
{
    let mut nothing: Vec<Option<Packument>> = Vec::new();
    let mut i: usize = 0;
    while i < names.len()
        invariant
            i <= names.len(),
            nothing@.len() == i,
            forall|j: int| 0 <= j < i ==> (#[trigger] nothing@[j]) is None,
        decreases names.len() - i,
    {
        nothing.push(None);
        i += 1;
    }
    assert(nothing.deep_view() =~= nothing_cached(names@.len()));
    nothing
}

/// The status with which a registry says that what is cached is what it has.
pub const NOT_MODIFIED: u16 = 304;

/// Whether an answer with `status` stands for what is cached. Without anything cached, only the answer
/// itself counts.
pub fn stands_for_cached(cached: bool, status: u16) -> (result: bool)
    ensures
        result == (cached && status == NOT_MODIFIED),
{
    cached && status == NOT_MODIFIED
}

/// What the outcome of a fetch means.
pub open spec fn fetched_view(result: Result<Vec<Packument>, Error>) -> Result<Seq<PackumentView>, Seq<Text>> {
    match result {
        Ok(packuments) => Ok(packuments.deep_view()),
        Err(error) => Err(error@),
    }
}

/// `member` is given in an object.
pub open spec fn has_member(value: JsonView, member: Text) -> bool {
    value is Object && exists|i: int| 0 <= i < value->Object_0.len() && (#[trigger] value->Object_0[i]).0 == member
}

impl VersionManifestView {
    pub open spec fn provides_bin(self) -> bool {
        ||| self.bin is String && self.bin->String_0.len() > 0
        ||| self.bin is Object && self.bin->Object_0.len() > 0
        ||| has_member(self.directories, "bin"@)
    }
}

impl VersionManifest {
    /// Whether the package provides executables.
    pub fn has_bin(&self) -> (result: bool)
        ensures
            result == self@.provides_bin(),
    {
        let declared = match &self.bin {
            Json::String(path) => !path.as_str().is_empty(),
            Json::Object(bins) => bins.len() > 0,
            _ => false,
        };
        declared || self.directories.has("bin")
    }
}

impl PackumentView {
    /// This may have changed at `cutoff` or later.
    pub open spec fn changed_after(self, cutoff: Timestamp) -> bool {
        match self.modified {
            Some(raw) => match parsed_time(raw) {
                Some(time) => !time.is_before(cutoff),
                None => true,
            },
            None => true,
        }
    }
}

impl Packument {
    /// Whether this may have changed at `cutoff` or later.
    pub fn changed_since(&self, cutoff: Timestamp) -> (result: bool)
        ensures
            result == self@.changed_after(cutoff),
    {
        let modified = match &self.modified {
            Some(raw) => parse_time(raw.as_str()),
            None => None,
        };
        may_have_changed(modified, cutoff)
    }
}

/// Whether something that was `modified` then, as far as that is known, may have changed at `cutoff`
/// or later.
pub fn may_have_changed(modified: Option<Timestamp>, cutoff: Timestamp) -> (result: bool)
    ensures
        result == (modified matches Some(time) ==> !time.is_before(cutoff)),
{
    match modified {
        Some(time) => !time.before(&cutoff),
        None => true,
    }
}

/// What the registry is asked to answer with.
pub const ABBREVIATED: &'static str = "application/vnd.npm.install-v1+json; q=1.0, application/json; q=0.8, */*";

/// How many requests are made at once.
pub const MAX_CONCURRENT_REQUESTS: usize = 32;

/// `s` without any `c` at its end.
pub open spec fn without_trailing(s: Text, c: char) -> Text
    decreases s.len(),
{
    if s.len() > 0 && s.last() == c {
        without_trailing(s.drop_last(), c)
    } else {
        s
    }
}

/// The URL of a registry, without slashes at its end.
pub fn registry_url(url: &str) -> (result: &str)
    ensures
        result@ == without_trailing(url@, '/'),
{
    let cs = chars(url);
    let mut n: usize = cs.len();
    assert(url@.take(n as int) =~= url@);
    while n > 0 && cs[n - 1] == '/'
        invariant
            n <= cs.len(),
            cs@ == url@,
            without_trailing(url@, '/') == without_trailing(url@.take(n as int), '/'),
        decreases n,
    {
        assert(url@.take(n as int).drop_last() =~= url@.take(n - 1));
        n -= 1;
    }
    assert(n > 0 ==> url@.take(n as int).last() == cs@[n - 1]);
    head(url, n)
}

/// Where the packument of `name` is in the registry at `url`.
pub open spec fn packument_address(url: Text, name: Text) -> Text {
    url + "/"@ + replaced(name, '/', "%2f"@)
}

/// Where the packument of `name` is in the registry at `url`.
pub fn packument_url(url: &str, name: &str) -> (result: String)
    ensures
        result@ == packument_address(url@, name@),
{
    cat3(url, "/", replace(name, '/', "%2f").as_str())
}

/// What a cache entry is named by.
pub open spec fn entry_key(url: Text, name: Text) -> Text {
    "application/vnd.npm.install-v1+json; q=1.0, application/json; q=0.8, */*"@ + "\n"@ + packument_address(url, name)
}

/// The file in which the packument of `name` is cached. Named by a hash, since package names that
/// differ only in case collide on case-insensitive file systems.
pub fn cache_file(url: &str, name: &str) -> (result: String)
    ensures
        result@ == hex_of(sha256_of(encode_utf8(entry_key(url@, name@)))) + ".json"@,
{
    let key = cat3(ABBREVIATED, "\n", packument_url(url, name).as_str());
    cat(hash(key.as_str().as_bytes()).as_str(), ".json")
}

/// The place of the first newline in `bytes`.
pub open spec fn first_newline(bytes: Seq<u8>) -> Option<int>
    decreases bytes.len(),
{
    if bytes.len() == 0 {
        None
    } else if bytes[0] == 10 {
        Some(0)
    } else {
        match first_newline(bytes.skip(1)) {
            Some(i) => Some(i + 1),
            None => None,
        }
    }
}

/// A cache entry, cut into its first line and what follows.
pub open spec fn cut_entry(bytes: Seq<u8>) -> Option<(Seq<u8>, Seq<u8>)> {
    match first_newline(bytes) {
        Some(i) => Some((bytes.take(i), bytes.skip(i + 1))),
        None => None,
    }
}

/// A cache entry: a line of validators followed by the packument as the registry sent it.
pub open spec fn framed_entry(validators: Seq<u8>, body: Seq<u8>) -> Seq<u8> {
    validators.push(10) + body
}

proof fn first_newline_is(bytes: Seq<u8>, i: int)
    requires
        0 <= i < bytes.len(),
        bytes[i] == 10,
        forall|j: int| 0 <= j < i ==> #[trigger] bytes[j] != 10,
    ensures
        first_newline(bytes) == Some(i),
    decreases i,
{
    if i > 0 {
        assert(bytes[0] != 10);
        let rest = bytes.skip(1);
        assert forall|j: int| 0 <= j < i - 1 implies #[trigger] rest[j] != 10 by {
            assert(bytes[j + 1] != 10);
        }
        first_newline_is(rest, i - 1);
    }
}

/// An entry is read as it was written, as long as the validators are on one line.
pub proof fn entry_is_read_back(validators: Seq<u8>, body: Seq<u8>)
    requires
        !validators.contains(10),
    ensures
        cut_entry(framed_entry(validators, body)) == Some((validators, body)),
{
    let bytes = framed_entry(validators, body);
    let n = validators.len() as int;
    assert forall|j: int| 0 <= j < n implies #[trigger] bytes[j] != 10 by {
        assert(bytes[j] == validators[j]);
        assert(validators.contains(validators[j]));
    }
    first_newline_is(bytes, n);
    assert(bytes.take(n) =~= validators);
    assert(bytes.skip(n + 1) =~= body);
}

/// Cuts a cache entry into its line of validators and the packument as the registry sent it.
pub fn split_entry(bytes: &Vec<u8>) -> (result: Option<(Vec<u8>, Vec<u8>)>)
    ensures
        match result {
            Some((validators, body)) => cut_entry(bytes@) == Some((validators@, body@)),
            None => cut_entry(bytes@) is None,
        },
{
    let mut i: usize = 0;
    assert(bytes@.skip(0) =~= bytes@);
    while i < bytes.len()
        invariant
            i <= bytes.len(),
            forall|j: int| 0 <= j < i ==> #[trigger] bytes@[j] != 10,
            match first_newline(bytes@.skip(i as int)) {
                Some(k) => first_newline(bytes@) == Some(i + k),
                None => first_newline(bytes@) is None,
            },
        decreases bytes.len() - i,
    {
        if bytes[i] == 10 {
            let validators = slice_to_vec(slice_subrange(bytes.as_slice(), 0, i));
            let body = slice_to_vec(slice_subrange(bytes.as_slice(), i + 1, bytes.len()));
            assert(validators@ =~= bytes@.take(i as int));
            assert(body@ =~= bytes@.skip(i + 1));
            return Some((validators, body));
        }
        assert(bytes@.skip(i as int).skip(1) =~= bytes@.skip(i + 1));
        i += 1;
    }
    None
}

/// Frames a cache entry.
pub fn frame_entry(validators: Vec<u8>, body: &Vec<u8>) -> (result: Vec<u8>)
    ensures
        result@ == framed_entry(validators@, body@),
{
    let mut bytes = validators;
    bytes.push(10);
    bytes.extend_from_slice(body.as_slice());
    assert(bytes@ =~= framed_entry(validators@, body@));
    bytes
}

/// A scoped name is one part of an address: its slash is encoded. Any other name stands as it is.
pub proof fn slashes_are_encoded(url: Text, scope: Text, name: Text)
    requires
        !scope.contains('/'),
        !name.contains('/'),
    ensures
        packument_address(url, name) == url + "/"@ + name,
        packument_address(url, scope + "/"@ + name) == url + "/"@ + (scope + "%2f"@ + name),
{
    reveal_strlit("/");
    let by = "%2f"@;
    plain_is_kept(name, '/', by);
    plain_is_kept(scope, '/', by);
    replaced_adds_up(scope + "/"@, name, '/', by);
    replaced_adds_up(scope, "/"@, '/', by);
    let none = Seq::<char>::empty();
    assert("/"@.drop_last() =~= none);
    assert(replaced(none, '/', by) =~= none);
    assert(replaced("/"@, '/', by) =~= by);
    assert(scope + "/"@ + name =~= (scope + "/"@) + name);
}

proof fn plain_is_kept(s: Text, c: char, by: Text)
    requires
        !s.contains(c),
    ensures
        replaced(s, c, by) == s,
    decreases s.len(),
{
    if s.len() > 0 {
        let shorter = s.drop_last();
        assert(s[s.len() - 1] == s.last());
        assert(!shorter.contains(c)) by {
            if shorter.contains(c) {
                assert(s[shorter.index_of(c)] == c);
            }
        }
        plain_is_kept(shorter, c, by);
        assert(replaced(s, c, by) =~= s);
    } else {
        assert(replaced(s, c, by) =~= s);
    }
}

proof fn replaced_adds_up(a: Text, b: Text, c: char, by: Text)
    ensures
        replaced(a + b, c, by) == replaced(a, c, by) + replaced(b, c, by),
    decreases b.len(),
{
    if b.len() == 0 {
        assert(a + b =~= a);
        assert(replaced(b, c, by) =~= Seq::<char>::empty());
        assert(replaced(a, c, by) + replaced(b, c, by) =~= replaced(a, c, by));
    } else {
        let shorter = b.drop_last();
        replaced_adds_up(a, shorter, c, by);
        assert((a + b).drop_last() =~= a + shorter);
        assert((a + b).last() == b.last());
        assert(replaced(a + b, c, by) =~= replaced(a, c, by) + replaced(b, c, by));
    }
}

/// All slashes at the end of the address of a registry are dropped, and nothing else is.
pub proof fn only_slashes_are_dropped(url: Text)
    ensures
        without_trailing(url, '/').len() > 0 ==> without_trailing(url, '/').last() != '/',
        without_trailing(url + "/"@, '/') == without_trailing(url, '/'),
        url.len() > 0 && url.last() != '/' ==> without_trailing(url, '/') == url,
        without_trailing(url, '/').is_prefix_of(url),
        forall|i: int| without_trailing(url, '/').len() <= i < url.len() ==> #[trigger] url[i] == '/',
    decreases url.len(),
{
    reveal_strlit("/");
    assert((url + "/"@).drop_last() =~= url);
    let kept = without_trailing(url, '/');
    if url.len() > 0 && url.last() == '/' {
        let shorter = url.drop_last();
        only_slashes_are_dropped(shorter);
        assert(kept =~= url.subrange(0, kept.len() as int)) by {
            assert(kept =~= shorter.subrange(0, kept.len() as int));
        }
        assert forall|i: int| kept.len() <= i < url.len() implies #[trigger] url[i] == '/' by {
            if i < shorter.len() {
                assert(shorter[i] == url[i]);
            }
        }
    } else {
        assert(kept =~= url.subrange(0, kept.len() as int));
    }
}

} // verus!
