//! Versions and the ranges that select them.
use vstd::prelude::*;
use vstd::string::*;

use crate::dict::Duplicate;
use crate::text::{
    chars, decimal, text_less, text_less_irreflexive, text_less_total, text_less_transitive, Text,
};

verus! {

/// One part of a prerelease or of build metadata.
#[derive(Debug, PartialEq, Eq)]
pub enum Identifier {
    Numeric(u64),
    AlphaNumeric(String),
}

/// What an `Identifier` means.
pub enum IdentifierView {
    Numeric(u64),
    AlphaNumeric(Text),
}

impl View for Identifier {
    type V = IdentifierView;

    open spec fn view(&self) -> IdentifierView {
        match self {
            Identifier::Numeric(n) => IdentifierView::Numeric(*n),
            Identifier::AlphaNumeric(s) => IdentifierView::AlphaNumeric(s@),
        }
    }
}

impl DeepView for Identifier {
    type V = IdentifierView;

    open spec fn deep_view(&self) -> IdentifierView {
        self@
    }
}

impl Duplicate for Identifier {
    fn duplicate(&self) -> (result: Self) {
        match self {
            Identifier::Numeric(n) => Identifier::Numeric(*n),
            Identifier::AlphaNumeric(s) => Identifier::AlphaNumeric(s.clone()),
        }
    }
}

/// A semantic version.
#[derive(Debug, PartialEq, Eq)]
pub struct Version {
    pub major: u64,
    pub minor: u64,
    pub patch: u64,
    pub pre_release: Vec<Identifier>,
    pub build: Vec<Identifier>,
}

/// What a `Version` means.
#[verifier::ext_equal]
pub struct VersionView {
    pub major: u64,
    pub minor: u64,
    pub patch: u64,
    pub pre_release: Seq<IdentifierView>,
    pub build: Seq<IdentifierView>,
}

impl View for Version {
    type V = VersionView;

    open spec fn view(&self) -> VersionView {
        VersionView {
            major: self.major,
            minor: self.minor,
            patch: self.patch,
            pre_release: self.pre_release.deep_view(),
            build: self.build.deep_view(),
        }
    }
}

impl DeepView for Version {
    type V = VersionView;

    open spec fn deep_view(&self) -> VersionView {
        self@
    }
}

impl Duplicate for Version {
    fn duplicate(&self) -> (result: Self) {
        Version {
            major: self.major,
            minor: self.minor,
            patch: self.patch,
            pre_release: self.pre_release.duplicate(),
            build: self.build.duplicate(),
        }
    }
}

/// Numbers come before words.
pub open spec fn identifier_less(a: IdentifierView, b: IdentifierView) -> bool {
    match (a, b) {
        (IdentifierView::Numeric(x), IdentifierView::Numeric(y)) => x < y,
        (IdentifierView::Numeric(_), IdentifierView::AlphaNumeric(_)) => true,
        (IdentifierView::AlphaNumeric(_), IdentifierView::Numeric(_)) => false,
        (IdentifierView::AlphaNumeric(x), IdentifierView::AlphaNumeric(y)) => text_less(x, y),
    }
}

/// Lexicographic order on lists of identifiers.
pub open spec fn identifiers_less(a: Seq<IdentifierView>, b: Seq<IdentifierView>) -> bool
    decreases a.len(),
{
    if b.len() == 0 {
        false
    } else if a.len() == 0 {
        true
    } else if a[0] == b[0] {
        identifiers_less(a.drop_first(), b.drop_first())
    } else {
        identifier_less(a[0], b[0])
    }
}

/// The precedence of versions. A prerelease comes before the release; build metadata does not count.
pub open spec fn version_less(a: VersionView, b: VersionView) -> bool {
    if a.major != b.major {
        a.major < b.major
    } else if a.minor != b.minor {
        a.minor < b.minor
    } else if a.patch != b.patch {
        a.patch < b.patch
    } else if a.pre_release.len() == 0 {
        false
    } else if b.pre_release.len() == 0 {
        true
    } else {
        identifiers_less(a.pre_release, b.pre_release)
    }
}

/// A version without its build metadata, by which versions of the same precedence are one.
pub open spec fn bare(v: VersionView) -> VersionView {
    VersionView { build: Seq::empty(), ..v }
}

proof fn identifiers_less_irreflexive(a: Seq<IdentifierView>)
    ensures
        !identifiers_less(a, a),
    decreases a.len(),
{
    if a.len() > 0 {
        identifiers_less_irreflexive(a.drop_first());
    }
}

proof fn identifier_less_laws(a: IdentifierView, b: IdentifierView, c: IdentifierView)
    ensures
        !identifier_less(a, a),
        identifier_less(a, b) && identifier_less(b, c) ==> identifier_less(a, c),
        identifier_less(a, b) || identifier_less(b, a) || a == b,
        !(identifier_less(a, b) && identifier_less(b, a)),
{
    if let IdentifierView::AlphaNumeric(x) = a {
        text_less_irreflexive(x);
        if let IdentifierView::AlphaNumeric(y) = b {
            text_less_total(x, y);
            if let IdentifierView::AlphaNumeric(z) = c {
                if text_less(x, y) && text_less(y, z) {
                    text_less_transitive(x, y, z);
                }
            }
        }
    }
}

proof fn identifiers_less_transitive(
    a: Seq<IdentifierView>,
    b: Seq<IdentifierView>,
    c: Seq<IdentifierView>,
)
    requires
        identifiers_less(a, b),
        identifiers_less(b, c),
    ensures
        identifiers_less(a, c),
    decreases a.len(),
{
    if a.len() > 0 {
        identifier_less_laws(a[0], b[0], c[0]);
        if a[0] == b[0] && b[0] == c[0] {
            identifiers_less_transitive(a.drop_first(), b.drop_first(), c.drop_first());
        } else if a[0] == c[0] {
            identifier_less_laws(b[0], c[0], b[0]);
        }
    }
}

proof fn identifiers_less_total(a: Seq<IdentifierView>, b: Seq<IdentifierView>)
    ensures
        identifiers_less(a, b) || identifiers_less(b, a) || a == b,
    decreases a.len(),
{
    if a.len() > 0 && b.len() > 0 {
        identifier_less_laws(a[0], b[0], a[0]);
        if a[0] == b[0] {
            identifiers_less_total(a.drop_first(), b.drop_first());
            if a.drop_first() == b.drop_first() {
                assert(a =~= seq![a[0]] + a.drop_first());
                assert(b =~= seq![b[0]] + b.drop_first());
            }
        }
    } else if a.len() == 0 && b.len() == 0 {
        assert(a =~= b);
    }
}

/// No version precedes itself.
pub proof fn version_less_irreflexive(a: VersionView)
    ensures
        !version_less(a, a),
{
    identifiers_less_irreflexive(a.pre_release);
}

/// Precedence is transitive.
pub proof fn version_less_transitive(a: VersionView, b: VersionView, c: VersionView)
    requires
        version_less(a, b),
        version_less(b, c),
    ensures
        version_less(a, c),
{
    if identifiers_less(a.pre_release, b.pre_release) && identifiers_less(b.pre_release, c.pre_release) {
        identifiers_less_transitive(a.pre_release, b.pre_release, c.pre_release);
    }
}

/// Of two versions that differ in more than build metadata, exactly one precedes the other.
pub proof fn version_less_total(a: VersionView, b: VersionView)
    ensures
        version_less(a, b) || version_less(b, a) || bare(a) == bare(b),
        !(version_less(a, b) && version_less(b, a)),
        bare(a) == bare(b) ==> !version_less(a, b),
{
    identifiers_less_total(a.pre_release, b.pre_release);
    identifiers_less_irreflexive(a.pre_release);
    if identifiers_less(a.pre_release, b.pre_release) && identifiers_less(b.pre_release, a.pre_release) {
        identifiers_less_transitive(a.pre_release, b.pre_release, a.pre_release);
    }
    if a.pre_release.len() == 0 && b.pre_release.len() == 0 {
        assert(a.pre_release =~= b.pre_release);
    }
}

/// Precedence does not see build metadata.
pub proof fn version_less_bare(a: VersionView, b: VersionView)
    ensures
        version_less(a, b) == version_less(bare(a), b),
        version_less(a, b) == version_less(a, bare(b)),
{
}

/// The version that a text stands for, if it is one.
pub uninterp spec fn parsed_version(raw: Text) -> Option<VersionView>;

/// `node_semver::Version::parse`. Claimed is only that the result depends on the text alone.
#[verifier::external_body]
fn outside_version(raw: &str) -> (result: Option<Version>)
    ensures
        result.deep_view() == parsed_version(raw@),
{
    let version = node_semver::Version::parse(raw).ok()?;
    let parts = |list: Vec<node_semver::Identifier>| {
        list.into_iter()
            .map(|part| match part {
                node_semver::Identifier::Numeric(n) => Identifier::Numeric(n),
                node_semver::Identifier::AlphaNumeric(s) => Identifier::AlphaNumeric(s),
            })
            .collect()
    };
    let (pre_release, build) = (parts(version.pre_release), parts(version.build));
    Some(Version { major: version.major, minor: version.minor, patch: version.patch, pre_release, build })
}

/// The `<` of `node_semver::Version`: by major, minor and patch number, then by prerelease, where
/// having none comes last and build metadata is ignored.
#[verifier::external_body]
fn outside_less(a: &Version, b: &Version) -> (result: bool)
    ensures
        result == version_less(a@, b@),
{
    let convert = |v: &Version| {
        let part = |id: &Identifier| match id {
            Identifier::Numeric(n) => node_semver::Identifier::Numeric(*n),
            Identifier::AlphaNumeric(s) => node_semver::Identifier::AlphaNumeric(s.clone()),
        };
        let mut outside = node_semver::Version::new(v.major, v.minor, v.patch);
        outside.pre_release = v.pre_release.iter().map(part).collect();
        outside.build = v.build.iter().map(part).collect();
        outside
    };
    convert(a) < convert(b)
}

/// The parts of a prerelease or of build metadata, with `first` before them and dots between them.
pub open spec fn identifiers_text(parts: Seq<IdentifierView>, first: Text) -> Text
    decreases parts.len(),
{
    if parts.len() == 0 {
        Seq::empty()
    } else {
        identifiers_text(parts.drop_last(), first) + (if parts.len() == 1 {
            first
        } else {
            "."@
        }) + match parts.last() {
            IdentifierView::Numeric(n) => decimal(n as nat),
            IdentifierView::AlphaNumeric(s) => s,
        }
    }
}

/// A version as text.
pub open spec fn version_text(v: VersionView) -> Text {
    decimal(v.major as nat) + "."@ + decimal(v.minor as nat) + "."@ + decimal(v.patch as nat) + identifiers_text(
        v.pre_release,
        "-"@,
    ) + identifiers_text(v.build, "+"@)
}

/// The `Display` of `node_semver::Version`: the three numbers, then the prerelease behind a hyphen
/// and the build metadata behind a plus sign, their parts joined by dots.
#[verifier::external_body]
fn outside_text(v: &Version) -> (result: String)
    ensures
        result@ == version_text(v@),
{
    let part = |id: &Identifier| match id {
        Identifier::Numeric(n) => node_semver::Identifier::Numeric(*n),
        Identifier::AlphaNumeric(s) => node_semver::Identifier::AlphaNumeric(s.clone()),
    };
    let mut outside = node_semver::Version::new(v.major, v.minor, v.patch);
    outside.pre_release = v.pre_release.iter().map(part).collect();
    outside.build = v.build.iter().map(part).collect();
    outside.to_string()
}

impl Version {
    pub fn parse(raw: &str) -> (result: Option<Version>)
        ensures
            result.deep_view() == parsed_version(raw@),
    {
        outside_version(raw)
    }

    /// Whether this version precedes `other`.
    pub fn precedes(&self, other: &Version) -> (result: bool)
        ensures
            result == version_less(self@, other@),
    {
        outside_less(self, other)
    }

    pub fn text(&self) -> (result: String)
        ensures
            result@ == version_text(self@),
    {
        outside_text(self)
    }

    pub fn is_prerelease(&self) -> (result: bool)
        ensures
            result == (self@.pre_release.len() > 0),
    {
        self.pre_release.len() > 0
    }

    /// This version without its build metadata.
    pub fn into_bare(self) -> (result: Version)
        ensures
            result@ == bare(self@),
    {
        let ghost before = self@;
        let result = Version {
            major: self.major,
            minor: self.minor,
            patch: self.patch,
            pre_release: self.pre_release,
            build: Vec::new(),
        };
        assert(result@ =~= bare(before));
        result
    }
}

/// What is wrong with a text as a range, if anything is.
pub uninterp spec fn range_problem(raw: Text) -> Option<Text>;

/// Whether a version lies in the range that a text stands for.
pub uninterp spec fn range_allows(raw: Text, version: VersionView) -> bool;

/// Whether the ranges that two texts stand for have something in common.
pub uninterp spec fn ranges_overlap(a: Text, b: Text) -> bool;

pub open spec fn is_blank(c: char) -> bool {
    c == ' ' || c == '\t'
}

pub open spec fn is_wildcard(c: char) -> bool {
    c == 'x' || c == 'X' || c == '*'
}

pub open spec fn is_digit(c: char) -> bool {
    '0' <= c <= '9'
}

/// The first place from `at` on that holds no blank.
pub open spec fn past_blanks(s: Text, at: int) -> int
    decreases s.len() - at,
{
    if 0 <= at < s.len() && is_blank(s[at]) {
        past_blanks(s, at + 1)
    } else {
        at
    }
}

/// The first place from `at` on that holds no digit.
pub open spec fn past_digits(s: Text, at: int) -> int
    decreases s.len() - at,
{
    if 0 <= at < s.len() && is_digit(s[at]) {
        past_digits(s, at + 1)
    } else {
        at
    }
}

/// The place behind `c`, where it stands at `at`.
pub open spec fn past(s: Text, at: int, c: char) -> int {
    if 0 <= at < s.len() && s[at] == c {
        at + 1
    } else {
        at
    }
}

/// Where the version begins behind an `=` at `at`, or behind a `~` or `~>`.
pub open spec fn operand(s: Text, at: int) -> int {
    let sign = if s[at] == '~' {
        past_blanks(s, past(s, past_blanks(s, at + 1), '>'))
    } else {
        past_blanks(s, at + 1)
    };
    past_blanks(s, past(s, sign, 'v'))
}

/// How many `|` stand right before `at`.
pub open spec fn pipes_before(s: Text, at: int) -> nat
    decreases at,
{
    if 0 < at <= s.len() && s[at - 1] == '|' {
        1 + pipes_before(s, at - 1)
    } else {
        0
    }
}

/// A comparison can begin at `at`: at the beginning, behind a blank or behind a `||`. Of an odd number
/// of `|` the last one belongs to what follows it.
pub open spec fn begins_comparison(s: Text, at: int) -> bool {
    ||| at == 0
    ||| is_blank(s[at - 1])
    ||| pipes_before(s, at) > 0 && pipes_before(s, at) % 2 == 0
}

/// The number that the digits from `from` up to `to` stand for.
pub open spec fn digits_value(s: Text, from: int, to: int) -> nat
    decreases to - from,
{
    if from >= to {
        0
    } else {
        digits_value(s, from, to - 1) * 10 + (s[to - 1] as nat - '0' as nat) as nat
    }
}

/// The largest number in a version that can be read.
pub const LARGEST_NUMBER: u64 = 900_719_925_474_099;

/// What stands from `from` up to `to` is a number that can be read.
pub open spec fn is_number(s: Text, from: int, to: int) -> bool {
    from < to && digits_value(s, from, to) <= LARGEST_NUMBER
}

/// An `=` or `~` at `at` begins a comparison that has no bounds: its major version is a wildcard,
/// or it is a `~` whose patch version is given where the minor version is a wildcard.
pub open spec fn is_boundless_at(s: Text, at: int) -> bool {
    let start = operand(s, at);
    let dot = past_digits(s, start);
    &&& 0 <= at < s.len()
    &&& s[at] == '=' || s[at] == '~'
    &&& begins_comparison(s, at)
    &&& {
        ||| start < s.len() && is_wildcard(s[start])
        ||| s[at] == '~' && is_number(s, start, dot) && dot + 3 < s.len() && s[dot] == '.' && is_wildcard(s[dot + 1])
            && s[dot + 2] == '.' && is_number(s, dot + 3, past_digits(s, dot + 3))
    }
}

/// A comparison in `raw` has no bounds.
pub open spec fn is_boundless(raw: Text) -> bool {
    exists|at: int| is_boundless_at(raw, at)
}

/// What is wrong with `raw` as a range.
pub open spec fn range_fault(raw: Text) -> Option<Text> {
    if is_boundless(raw) {
        Some("a wildcard cannot be compared with"@)
    } else {
        range_problem(raw)
    }
}

/// `version` is in the range `raw`.
pub open spec fn in_range(raw: Text, version: VersionView) -> bool {
    range_fault(raw) is None && range_allows(raw, version)
}

/// `node_semver::Range::parse`, and the `Display` of its error. Claimed is only that the result
/// depends on the text alone. The call panics on a comparison that has no bounds.
#[verifier::external_body]
fn outside_range(raw: &str) -> (result: Option<String>)
    requires
        !is_boundless(raw@),
    ensures
        result.deep_view() == range_problem(raw@),
{
    node_semver::Range::parse(raw).err().map(|error| error.to_string())
}

/// `node_semver::Range::satisfies`, on the range that `raw` is parsed into. Claimed is only that the
/// result depends on the text and the version alone.
#[verifier::external_body]
fn outside_allows(raw: &str, version: &Version) -> (result: bool)
    requires
        !is_boundless(raw@),
    ensures
        result == range_allows(raw@, version@),
{
    let part = |id: &Identifier| match id {
        Identifier::Numeric(n) => node_semver::Identifier::Numeric(*n),
        Identifier::AlphaNumeric(s) => node_semver::Identifier::AlphaNumeric(s.clone()),
    };
    let mut outside = node_semver::Version::new(version.major, version.minor, version.patch);
    outside.pre_release = version.pre_release.iter().map(part).collect();
    outside.build = version.build.iter().map(part).collect();
    node_semver::Range::parse(raw).is_ok_and(|range| range.satisfies(&outside))
}

/// `node_semver::Range::allows_any`, on the ranges that `a` and `b` are parsed into. Claimed is only
/// that the result depends on the two texts alone.
#[verifier::external_body]
fn outside_overlap(a: &str, b: &str) -> (result: bool)
    requires
        !is_boundless(a@),
        !is_boundless(b@),
    ensures
        result == ranges_overlap(a@, b@),
{
    match (node_semver::Range::parse(a), node_semver::Range::parse(b)) {
        (Ok(a), Ok(b)) => a.allows_any(&b),
        _ => false,
    }
}

fn skip_blanks(cs: &Vec<char>, at: usize) -> (result: usize)
    requires
        at <= cs@.len(),
    ensures
        result == past_blanks(cs@, at as int),
        at <= result <= cs@.len(),
{
    let mut i: usize = at;
    while i < cs.len() && (cs[i] == ' ' || cs[i] == '\t')
        invariant
            at <= i <= cs@.len(),
            past_blanks(cs@, at as int) == past_blanks(cs@, i as int),
        decreases cs.len() - i,
    {
        i += 1;
    }
    i
}

fn skip_digits(cs: &Vec<char>, at: usize) -> (result: usize)
    requires
        at <= cs@.len(),
    ensures
        result == past_digits(cs@, at as int),
        at <= result <= cs@.len(),
{
    let mut i: usize = at;
    while i < cs.len() && '0' <= cs[i] && cs[i] <= '9'
        invariant
            at <= i <= cs@.len(),
            past_digits(cs@, at as int) == past_digits(cs@, i as int),
        decreases cs.len() - i,
    {
        i += 1;
    }
    i
}

fn skip(cs: &Vec<char>, at: usize, c: char) -> (result: usize)
    requires
        at <= cs@.len(),
    ensures
        result == past(cs@, at as int, c),
        at <= result <= cs@.len(),
{
    if at < cs.len() && cs[at] == c {
        at + 1
    } else {
        at
    }
}

fn wildcard(c: char) -> (result: bool)
    ensures
        result == is_wildcard(c),
{
    c == 'x' || c == 'X' || c == '*'
}

fn starts_comparison(cs: &Vec<char>, at: usize) -> (result: bool)
    requires
        at < cs@.len(),
    ensures
        result == begins_comparison(cs@, at as int),
{
    if at == 0 || cs[at - 1] == ' ' || cs[at - 1] == '\t' {
        return true;
    }
    let mut i: usize = at;
    let mut even: bool = true;
    while i > 0 && cs[i - 1] == '|'
        invariant
            i <= at < cs@.len(),
            pipes_before(cs@, at as int) == at - i + pipes_before(cs@, i as int),
            even == ((at - i) % 2 == 0),
        decreases i,
    {
        i -= 1;
        even = !even;
    }
    i < at && even
}

/// Whether what stands from `from` up to `to`, which is digits alone, is a number that can be read.
fn readable_number(cs: &Vec<char>, from: usize, to: usize) -> (result: bool)
    requires
        from <= to <= cs@.len(),
        to == past_digits(cs@, from as int),
    ensures
        result == is_number(cs@, from as int, to as int),
{
    let mut value: u64 = 0;
    let mut i: usize = from;
    while i < to
        invariant
            from <= i <= to <= cs@.len(),
            to == past_digits(cs@, i as int),
            value <= LARGEST_NUMBER,
            value == digits_value(cs@, from as int, i as int),
        decreases to - i,
    {
        proof {
            assert(is_digit(cs@[i as int]));
        }
        value = value * 10 + (cs[i] as u64 - '0' as u64);
        i += 1;
        if value > LARGEST_NUMBER {
            proof {
                digits_value_grows(cs@, from as int, i as int, to as int);
            }
            return false;
        }
    }
    from < to
}

proof fn digits_value_grows(s: Text, from: int, middle: int, to: int)
    requires
        from <= middle <= to,
    ensures
        digits_value(s, from, middle) <= digits_value(s, from, to),
    decreases to - middle,
{
    if middle < to {
        digits_value_grows(s, from, middle, to - 1);
    }
}

fn boundless_at(cs: &Vec<char>, at: usize) -> (result: bool)
    requires
        at < cs@.len(),
    ensures
        result == is_boundless_at(cs@, at as int),
{
    if cs[at] != '=' && cs[at] != '~' {
        return false;
    }
    if !starts_comparison(cs, at) {
        return false;
    }
    let n: usize = cs.len();
    let behind: usize = skip_blanks(cs, at + 1);
    let sign: usize = if cs[at] == '~' {
        skip_blanks(cs, skip(cs, behind, '>'))
    } else {
        behind
    };
    let start: usize = skip_blanks(cs, skip(cs, sign, 'v'));
    if start < cs.len() && wildcard(cs[start]) {
        return true;
    }
    let dot: usize = skip_digits(cs, start);
    cs[at] == '~' && readable_number(cs, start, dot) && n > 3 && dot < n - 3 && cs[dot] == '.' && wildcard(cs[dot + 1])
        && cs[dot + 2] == '.' && readable_number(cs, dot + 3, skip_digits(cs, dot + 3))
}

fn boundless(raw: &str) -> (result: bool)
    ensures
        result == is_boundless(raw@),
{
    let cs = chars(raw);
    let mut i: usize = 0;
    while i < cs.len()
        invariant
            i <= cs.len(),
            cs@ == raw@,
            forall|j: int| 0 <= j < i ==> !#[trigger] is_boundless_at(raw@, j),
        decreases cs.len() - i,
    {
        if boundless_at(&cs, i) {
            return true;
        }
        i += 1;
    }
    false
}

/// What is wrong with `raw` as a range.
pub fn check_range(raw: &str) -> (result: Option<String>)
    ensures
        result.deep_view() == range_fault(raw@),
{
    if boundless(raw) {
        Some("a wildcard cannot be compared with".to_owned())
    } else {
        outside_range(raw)
    }
}

/// Whether `version` is in the range `raw`.
pub fn satisfies(raw: &str, version: &Version) -> (result: bool)
    ensures
        result == in_range(raw@, version@),
{
    check_range(raw).is_none() && outside_allows(raw, version)
}

/// Whether the ranges `a` and `b` have something in common.
pub fn overlaps(a: &str, b: &str) -> (result: bool)
    ensures
        result == (range_fault(a@) is None && range_fault(b@) is None && ranges_overlap(a@, b@)),
{
    check_range(a).is_none() && check_range(b).is_none() && outside_overlap(a, b)
}

/// Versions that begin alike are told apart by the first number that differs. With the same numbers, a
/// prerelease comes before the release, and prereleases that begin alike are told apart by the first part
/// that differs, or else by which of them has more parts: numbers as numbers, and before words.
pub proof fn first_difference_counts(
    a: VersionView,
    b: VersionView,
    common: Seq<IdentifierView>,
    x: IdentifierView,
    y: IdentifierView,
    more: Seq<IdentifierView>,
    rest: Seq<IdentifierView>,
)
    ensures
        a.major < b.major ==> version_less(a, b) && !version_less(b, a),
        a.major == b.major && a.minor < b.minor ==> version_less(a, b) && !version_less(b, a),
        a.major == b.major && a.minor == b.minor && a.patch < b.patch ==> version_less(a, b) && !version_less(b, a),
        a.major == b.major && a.minor == b.minor && a.patch == b.patch ==> {
            &&& a.pre_release.len() > 0 && b.pre_release.len() == 0 ==> version_less(a, b) && !version_less(b, a)
            &&& a.pre_release == common.push(x) + more && b.pre_release == common.push(y) + rest ==> {
                &&& (x matches IdentifierView::Numeric(n) && y matches IdentifierView::Numeric(m) && n < m)
                    ==> version_less(a, b) && !version_less(b, a)
                &&& x is Numeric && y is AlphaNumeric ==> version_less(a, b) && !version_less(b, a)
            }
            &&& common.len() > 0 && a.pre_release == common && b.pre_release == common.push(y) + rest
                ==> version_less(a, b) && !version_less(b, a)
        },
{
    version_less_total(a, b);
    if a.pre_release == common.push(x) + more && b.pre_release == common.push(y) + rest && identifier_less(x, y)
        && x != y {
        prefix_is_skipped(common, seq![x] + more, seq![y] + rest);
        assert(a.pre_release =~= common + (seq![x] + more));
        assert(b.pre_release =~= common + (seq![y] + rest));
    }
    if a.pre_release == common && b.pre_release == common.push(y) + rest {
        prefix_is_skipped(common, Seq::empty(), seq![y] + rest);
        assert(a.pre_release =~= common + Seq::<IdentifierView>::empty());
        assert(b.pre_release =~= common + (seq![y] + rest));
    }
}

proof fn prefix_is_skipped(common: Seq<IdentifierView>, a: Seq<IdentifierView>, b: Seq<IdentifierView>)
    ensures
        identifiers_less(common + a, common + b) == identifiers_less(a, b),
    decreases common.len(),
{
    if common.len() == 0 {
        assert(common + a =~= a);
        assert(common + b =~= b);
    } else {
        prefix_is_skipped(common.drop_first(), a, b);
        assert((common + a).drop_first() =~= common.drop_first() + a);
        assert((common + b).drop_first() =~= common.drop_first() + b);
    }
}

} // verus!
