//! Hashes, and where things are kept.
use vstd::prelude::*;
use vstd::string::*;

use crate::error::Error;
use crate::text::{cat, cat3, part, starts_with, Text};

verus! {

/// The hexadecimal digit for `n`.
pub open spec fn hex_digit(n: int) -> char {
    "0123456789abcdef"@[n]
}

/// Bytes in hexadecimal notation, two digits each.
pub open spec fn hex_of(bytes: Seq<u8>) -> Text
    decreases bytes.len(),
{
    if bytes.len() == 0 {
        Seq::empty()
    } else {
        hex_of(bytes.drop_last()).push(hex_digit(bytes.last() as int / 16)).push(hex_digit(bytes.last() as int % 16))
    }
}

/// Bytes in hexadecimal notation, two digits each.
pub fn hex(bytes: &Vec<u8>) -> (result: String)
    ensures
        result@ == hex_of(bytes@),
{
    let digits = "0123456789abcdef";
    proof {
        reveal_strlit("0123456789abcdef");
    }
    let mut result: String = String::new();
    let mut i: usize = 0;
    while i < bytes.len()
        invariant
            i <= bytes.len(),
            digits@ == "0123456789abcdef"@,
            digits@.len() == 16,
            result@ == hex_of(bytes@.take(i as int)),
        decreases bytes.len() - i,
    {
        let high: usize = (bytes[i] / 16) as usize;
        let low: usize = (bytes[i] % 16) as usize;
        let ghost before = result@;
        assert(bytes@.take(i + 1).drop_last() =~= bytes@.take(i as int));
        result.append(part(digits, high, high + 1));
        result.append(part(digits, low, low + 1));
        i += 1;
        assert(result@ =~= hex_of(bytes@.take(i as int)));
    }
    assert(bytes@.take(i as int) =~= bytes@);
    result
}

proof fn hex_digit_unique(a: int, b: int)
    requires
        0 <= a < 16,
        0 <= b < 16,
        hex_digit(a) == hex_digit(b),
    ensures
        a == b,
{
    reveal_strlit("0123456789abcdef");
}

/// Different bytes have different notations.
pub proof fn hex_is_injective(a: Seq<u8>, b: Seq<u8>)
    requires
        hex_of(a) == hex_of(b),
    ensures
        a == b,
    decreases a.len(),
{
    hex_length(a);
    hex_length(b);
    if a.len() == 0 {
        assert(a =~= b);
    } else {
        let (s, t) = (hex_of(a), hex_of(b));
        let n = s.len() as int;
        hex_length(a.drop_last());
        hex_length(b.drop_last());
        assert(s[n - 1] == hex_digit(a.last() as int % 16) && s[n - 2] == hex_digit(a.last() as int / 16));
        assert(t[n - 1] == hex_digit(b.last() as int % 16) && t[n - 2] == hex_digit(b.last() as int / 16));
        hex_digit_unique(a.last() as int % 16, b.last() as int % 16);
        hex_digit_unique(a.last() as int / 16, b.last() as int / 16);
        assert(s.take(n - 2) =~= hex_of(a.drop_last()));
        assert(t.take(n - 2) =~= hex_of(b.drop_last()));
        hex_is_injective(a.drop_last(), b.drop_last());
        assert(a =~= a.drop_last().push(a.last()));
        assert(b =~= b.drop_last().push(b.last()));
    }
}

/// There are two digits to a byte.
pub proof fn hex_length(bytes: Seq<u8>)
    ensures
        hex_of(bytes).len() == 2 * bytes.len(),
    decreases bytes.len(),
{
    if bytes.len() > 0 {
        hex_length(bytes.drop_last());
    }
}

/// The SHA-256 digest of bytes.
pub uninterp spec fn sha256_of(bytes: Seq<u8>) -> Seq<u8>;

/// `sha2::Sha256::digest`. Claimed is that the digest depends on the bytes alone, and has 32 bytes.
#[verifier::external_body]
pub(crate) fn sha256(bytes: &[u8]) -> (result: Vec<u8>)
    ensures
        result@ == sha256_of(bytes@),
        result@.len() == 32,
{
    <sha2::Sha256 as sha2::Digest>::digest(bytes).to_vec()
}

/// The digest of bytes, in hexadecimal notation.
pub fn hash(bytes: &[u8]) -> (result: String)
    ensures
        result@ == hex_of(sha256_of(bytes@)),
{
    hex(&sha256(bytes))
}

/// Where hinata keeps what it has built and fetched, given the cache directory and the home
/// directory of the user as far as they are known.
pub open spec fn cache_path(xdg_cache_home: Option<Text>, home: Option<Text>) -> Option<Text> {
    match (xdg_cache_home, home) {
        (Some(cache), _) => Some(joined_path(cache, "hinata"@)),
        (None, Some(home)) => Some(joined_path(joined_path(home, ".cache"@), "hinata"@)),
        (None, None) => None,
    }
}

/// `name` in the directory `dir`, or `name` itself if it is an absolute path.
pub open spec fn joined_path(dir: Text, name: Text) -> Text {
    if "/"@.is_prefix_of(name) {
        name
    } else if dir.len() == 0 || dir.last() == '/' {
        dir + name
    } else {
        dir + "/"@ + name
    }
}

/// `name` in the directory `dir`, or `name` itself if it is an absolute path.
pub fn join_path(dir: &str, name: &str) -> (result: String)
    ensures
        result@ == joined_path(dir@, name@),
{
    let n: usize = dir.unicode_len();
    if starts_with(name, "/") {
        name.to_owned()
    } else if n == 0 || dir.get_char(n - 1) == '/' {
        cat(dir, name)
    } else {
        cat3(dir, "/", name)
    }
}

/// GC roots are kept outside projects, which the Nix daemon may not be permitted to read.
pub fn cache_dir(xdg_cache_home: Option<&str>, home: Option<&str>) -> (result: Result<String, Error>)
    ensures
        match result {
            Ok(path) => cache_path(xdg_cache_home.deep_view(), home.deep_view()) == Some(path@),
            Err(error) => cache_path(xdg_cache_home.deep_view(), home.deep_view()) is None && error@ == seq![
                "neither XDG_CACHE_HOME nor HOME is set"@,
            ],
        },
{
    match (xdg_cache_home, home) {
        (Some(cache), _) => Ok(join_path(cache, "hinata")),
        (None, Some(home)) => Ok(join_path(join_path(home, ".cache").as_str(), "hinata")),
        (None, None) => Err(Error::new("neither XDG_CACHE_HOME nor HOME is set".to_owned())),
    }
}

/// Where projects are kept in the cache.
pub fn projects_dir(cache: &str) -> (result: String)
    ensures
        result@ == joined_path(cache@, "projects"@),
{
    join_path(cache, "projects")
}

/// Where registry metadata is kept in the cache.
pub fn metadata_dir(cache: &str) -> (result: String)
    ensures
        result@ == joined_path(cache@, "metadata"@),
{
    join_path(cache, "metadata")
}

/// Where the project at `root` is kept in the cache.
pub fn project_dir(cache: &str, root: &[u8]) -> (result: String)
    ensures
        result@ == joined_path(joined_path(cache@, "projects"@), hex_of(sha256_of(root@))),
{
    join_path(projects_dir(cache).as_str(), hash(root).as_str())
}

/// Whether a project in the cache is pruned: one that noted where it belongs, and that is gone.
/// Entries without a note may belong to an install that is still setting them up.
pub fn is_pruned(noted: bool, exists: bool) -> (result: bool)
    ensures
        result == (noted && !exists),
{
    noted && !exists
}

/// The cache is a directory of its own within the user's, which counts before one in the home directory. It
/// is missing only where neither is known.
pub proof fn cache_is_found(cache: Text, home: Text, other: Option<Text>)
    requires
        cache.len() > 0 && cache.last() != '/',
        home.len() > 0 && home.last() != '/',
    ensures
        cache_path(Some(cache), other) == Some(cache + "/hinata"@),
        cache_path(None, Some(home)) == Some(home + "/.cache/hinata"@),
        cache_path(None, None) is None,
{
    reveal_strlit("/");
    reveal_strlit(".cache");
    reveal_strlit("hinata");
    reveal_strlit("/hinata");
    reveal_strlit("/.cache/hinata");
    assert("hinata"@[0] != '/' && ".cache"@[0] != '/');
    assert(!"/"@.is_prefix_of("hinata"@)) by {
        if "/"@.is_prefix_of("hinata"@) {
            assert("hinata"@.subrange(0, 1)[0] == '/');
        }
    }
    assert(!"/"@.is_prefix_of(".cache"@)) by {
        if "/"@.is_prefix_of(".cache"@) {
            assert(".cache"@.subrange(0, 1)[0] == '/');
        }
    }
    let inner = joined_path(home, ".cache"@);
    assert(inner.last() == 'e');
    assert(cache + "/"@ + "hinata"@ =~= cache + "/hinata"@);
    assert(inner + "/"@ + "hinata"@ =~= home + "/.cache/hinata"@);
}

/// A name that is no absolute path leads into the directory: behind it stands the name, with one slash
/// between them that the directory may already end in. An absolute path leads where it leads on its own.
pub proof fn names_lie_within(dir: Text, name: Text)
    ensures
        name.len() > 0 && name[0] == '/' ==> joined_path(dir, name) == name,
        !(name.len() > 0 && name[0] == '/') && dir.len() > 0 ==> {
            let path = joined_path(dir, name);
            &&& path.take(dir.len() as int) == dir
            &&& path.skip(path.len() - name.len()) == name
            &&& path[path.len() - name.len() - 1] == '/'
            &&& path.len() - name.len() - dir.len() == if dir.last() == '/' {
                0int
            } else {
                1int
            }
        },
        !(name.len() > 0 && name[0] == '/') && dir.len() == 0 ==> joined_path(dir, name) == name,
{
    reveal_strlit("/");
    let path = joined_path(dir, name);
    if name.len() > 0 && name[0] == '/' {
        assert("/"@ =~= name.subrange(0, 1));
    } else {
        assert(!"/"@.is_prefix_of(name)) by {
            if "/"@.is_prefix_of(name) {
                assert(name.subrange(0, 1)[0] == '/');
            }
        }
        if dir.len() > 0 {
            assert(path.take(dir.len() as int) =~= dir);
            assert(path.skip(path.len() - name.len()) =~= name);
        } else {
            assert(path =~= name);
        }
    }
}

} // verus!
