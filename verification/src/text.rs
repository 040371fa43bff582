//! Strings as sequences of characters, and the order that strings have as map keys.
use vstd::prelude::*;
use vstd::string::*;
use vstd::utf8::*;

verus! {

/// What a string holds.
pub type Text = Seq<char>;

/// Lexicographic order on byte strings.
pub open spec fn bytes_less(a: Seq<u8>, b: Seq<u8>) -> bool
    decreases a.len(),
{
    if b.len() == 0 {
        false
    } else if a.len() == 0 {
        true
    } else if a[0] == b[0] {
        bytes_less(a.drop_first(), b.drop_first())
    } else {
        a[0] < b[0]
    }
}

/// Strings are ordered by their UTF-8 bytes.
#[verifier::opaque]
pub open spec fn text_less(a: Text, b: Text) -> bool {
    bytes_less(encode_utf8(a), encode_utf8(b))
}

proof fn bytes_less_irreflexive(a: Seq<u8>)
    ensures
        !bytes_less(a, a),
    decreases a.len(),
{
    if a.len() > 0 {
        bytes_less_irreflexive(a.drop_first());
    }
}

proof fn bytes_less_transitive(a: Seq<u8>, b: Seq<u8>, c: Seq<u8>)
    requires
        bytes_less(a, b),
        bytes_less(b, c),
    ensures
        bytes_less(a, c),
    decreases a.len(),
{
    if a.len() > 0 && a[0] == b[0] && b[0] == c[0] {
        bytes_less_transitive(a.drop_first(), b.drop_first(), c.drop_first());
    }
}

proof fn bytes_less_total(a: Seq<u8>, b: Seq<u8>)
    ensures
        bytes_less(a, b) || bytes_less(b, a) || a == b,
    decreases a.len(),
{
    if a.len() > 0 && b.len() > 0 {
        if a[0] == b[0] {
            bytes_less_total(a.drop_first(), b.drop_first());
            if a.drop_first() == b.drop_first() {
                assert(a =~= seq![a[0]] + a.drop_first());
                assert(b =~= seq![b[0]] + b.drop_first());
            }
        }
    } else if a.len() == 0 && b.len() == 0 {
        assert(a =~= b);
    }
}

/// No string comes before itself.
pub proof fn text_less_irreflexive(a: Text)
    ensures
        !text_less(a, a),
{
    reveal(text_less);
    bytes_less_irreflexive(encode_utf8(a));
}

/// The order of strings is transitive.
pub proof fn text_less_transitive(a: Text, b: Text, c: Text)
    requires
        text_less(a, b),
        text_less(b, c),
    ensures
        text_less(a, c),
{
    reveal(text_less);
    bytes_less_transitive(encode_utf8(a), encode_utf8(b), encode_utf8(c));
}

/// Of two different strings, exactly one comes before the other.
pub proof fn text_less_total(a: Text, b: Text)
    ensures
        text_less(a, b) || text_less(b, a) || a == b,
        !(text_less(a, b) && text_less(b, a)),
{
    reveal(text_less);
    let (x, y) = (encode_utf8(a), encode_utf8(b));
    bytes_less_total(x, y);
    if x == y {
        encode_utf8_decode_utf8(a);
        encode_utf8_decode_utf8(b);
    }
    if bytes_less(x, y) && bytes_less(y, x) {
        bytes_less_transitive(x, y, x);
        bytes_less_irreflexive(x);
    }
}

/// Whether `a` comes before `b`.
pub fn less(a: &str, b: &str) -> (result: bool)
    ensures
        result == text_less(a@, b@),
{
    reveal(text_less);
    let (x, y) = (a.as_bytes(), b.as_bytes());
    let mut i: usize = 0;
    assert(x@.skip(0) =~= x@ && y@.skip(0) =~= y@);
    while i < x.len() && i < y.len() && x[i] == y[i]
        invariant
            i <= x.len(),
            i <= y.len(),
            bytes_less(x@, y@) == bytes_less(x@.skip(i as int), y@.skip(i as int)),
        decreases x.len() - i,
    {
        assert(x@.skip(i as int).drop_first() =~= x@.skip(i + 1));
        assert(y@.skip(i as int).drop_first() =~= y@.skip(i + 1));
        i += 1;
    }
    i < y.len() && (i == x.len() || x[i] < y[i])
}

/// Whether `a` and `b` hold the same characters.
pub fn same(a: &str, b: &str) -> (result: bool)
    ensures
        result == (a@ == b@),
{
    let (x, y) = (a.as_bytes(), b.as_bytes());
    proof {
        encode_utf8_decode_utf8(a@);
        encode_utf8_decode_utf8(b@);
    }
    if x.len() != y.len() {
        return false;
    }
    let mut i: usize = 0;
    while i < x.len()
        invariant
            i <= x.len(),
            x.len() == y.len(),
            x@ == a.spec_bytes(),
            y@ == b.spec_bytes(),
            forall|j: int| 0 <= j < i ==> x@[j] == y@[j],
        decreases x.len() - i,
    {
        if x[i] != y[i] {
            return false;
        }
        i += 1;
    }
    assert(x@ =~= y@);
    true
}

/// The characters of `s`.
pub fn chars(s: &str) -> (result: Vec<char>)
    ensures
        result@ == s@,
{
    let mut result: Vec<char> = Vec::new();
    for c in it: s.chars()
        invariant
            it.seq() == s@,
            result@ == s@.take(it.index() as int),
    {
        result.push(c);
        assert(result@ =~= s@.take(it.index() + 1));
    }
    assert(s@.take(s@.len() as int) =~= s@);
    result
}

/// `a` followed by `b`.
pub fn cat(a: &str, b: &str) -> (result: String)
    ensures
        result@ == a@ + b@,
{
    let mut result: String = a.to_owned();
    result.append(b);
    result
}

/// `a`, `b` and `c` in a row.
pub fn cat3(a: &str, b: &str, c: &str) -> (result: String)
    ensures
        result@ == a@ + b@ + c@,
{
    let mut result: String = a.to_owned();
    result.append(b);
    result.append(c);
    result
}

/// `a`, `b`, `c` and `d` in a row.
pub fn cat4(a: &str, b: &str, c: &str, d: &str) -> (result: String)
    ensures
        result@ == a@ + b@ + c@ + d@,
{
    let mut result: String = cat3(a, b, c);
    result.append(d);
    result
}

/// `a` to `e` in a row.
pub fn cat5(a: &str, b: &str, c: &str, d: &str, e: &str) -> (result: String)
    ensures
        result@ == a@ + b@ + c@ + d@ + e@,
{
    let mut result: String = cat4(a, b, c, d);
    result.append(e);
    result
}

/// The part of `s` from place `from` up to place `to`.
pub fn part(s: &str, from: usize, to: usize) -> (result: &str)
    requires
        from <= to <= s@.len(),
    ensures
        result@ == s@.subrange(from as int, to as int),
{
    s.substring_char(from, to)
}

/// The first `to` characters of `s`.
pub fn head(s: &str, to: usize) -> (result: &str)
    requires
        to <= s@.len(),
    ensures
        result@ == s@.take(to as int),
{
    s.substring_char(0, to)
}

/// What follows the first `from` characters of `s`.
pub fn tail(s: &str, from: usize) -> (result: &str)
    requires
        from <= s@.len(),
    ensures
        result@ == s@.skip(from as int),
{
    s.substring_char(from, s.unicode_len())
}

/// `at` is where `c` first stands in `s`, if it does at all.
pub open spec fn is_first(s: Text, c: char, at: Option<usize>) -> bool {
    match at {
        Some(i) => i < s.len() && s[i as int] == c && s.index_of_first(c) == Some(i as int),
        None => !s.contains(c) && s.index_of_first(c) is None,
    }
}

/// `at` is where `c` last stands in `s`, if it does at all.
pub open spec fn is_last(s: Text, c: char, at: Option<usize>) -> bool {
    match at {
        Some(i) => i < s.len() && s[i as int] == c && s.index_of_last(c) == Some(i as int),
        None => !s.contains(c) && s.index_of_last(c) is None,
    }
}

/// Where `c` first stands in `s`.
pub fn find(s: &str, c: char) -> (result: Option<usize>)
    ensures
        is_first(s@, c, result),
        result is Some ==> result->0 < usize::MAX,
{
    let cs = chars(s);
    let mut i: usize = 0;
    proof {
        s@.index_of_first_ensures(c);
    }
    while i < cs.len()
        invariant
            i <= cs.len(),
            cs@ == s@,
            forall|j: int| 0 <= j < i ==> s@[j] != c,
            match s@.index_of_first(c) {
                Some(index) => s@.contains(c) && s@[index] == c && 0 <= index < s@.len() && forall|j: int|
                    0 <= j < index < s@.len() ==> s@[j] != c,
                None => !s@.contains(c),
            },
        decreases cs.len() - i,
    {
        if cs[i] == c {
            assert(s@.contains(c));
            return Some(i);
        }
        i += 1;
    }
    None
}

/// Where `c` last stands in `s`.
pub fn find_last(s: &str, c: char) -> (result: Option<usize>)
    ensures
        is_last(s@, c, result),
        result is Some ==> result->0 < usize::MAX,
{
    let cs = chars(s);
    let mut i: usize = cs.len();
    proof {
        s@.index_of_last_ensures(c);
    }
    while i > 0
        invariant
            i <= cs.len(),
            cs@ == s@,
            forall|j: int| i <= j < s@.len() ==> s@[j] != c,
            match s@.index_of_last(c) {
                Some(index) => s@.contains(c) && s@[index] == c && 0 <= index < s@.len() && forall|j: int|
                    0 <= index < j < s@.len() ==> s@[j] != c,
                None => !s@.contains(c),
            },
        decreases i,
    {
        i -= 1;
        if cs[i] == c {
            assert(s@.contains(c));
            return Some(i);
        }
    }
    None
}

/// Whether `c` stands in `s`.
pub fn contains(s: &str, c: char) -> (result: bool)
    ensures
        result == s@.contains(c),
{
    find(s, c).is_some()
}

/// Whether `s` begins with `prefix`.
pub fn starts_with(s: &str, prefix: &str) -> (result: bool)
    ensures
        result == prefix@.is_prefix_of(s@),
{
    let n: usize = prefix.unicode_len();
    if n > s.unicode_len() {
        return false;
    }
    same(head(s, n), prefix)
}

/// What `s` leaves behind `prefix`.
pub open spec fn without_prefix(s: Text, prefix: Text) -> Option<Text> {
    if prefix.is_prefix_of(s) {
        Some(s.skip(prefix.len() as int))
    } else {
        None
    }
}

pub fn strip_prefix<'a>(s: &'a str, prefix: &str) -> (result: Option<&'a str>)
    ensures
        result.deep_view() == without_prefix(s@, prefix@),
{
    if starts_with(s, prefix) {
        Some(tail(s, prefix.unicode_len()))
    } else {
        None
    }
}

/// `s` cut at the first `c`.
pub open spec fn cut_at_first(s: Text, c: char) -> Option<(Text, Text)> {
    match s.index_of_first(c) {
        Some(i) => Some((s.take(i), s.skip(i + 1))),
        None => None,
    }
}

/// `s` cut at the last `c`.
pub open spec fn cut_at_last(s: Text, c: char) -> Option<(Text, Text)> {
    match s.index_of_last(c) {
        Some(i) => Some((s.take(i), s.skip(i + 1))),
        None => None,
    }
}

/// A text is cut at the first `c` where what stands before holds none, and at the last `c` where what
/// stands behind holds none. A text without any is not cut.
pub proof fn cuts_give_parts(head: Text, tail: Text, c: char)
    ensures
        !head.contains(c) ==> cut_at_first(head + seq![c] + tail, c) == Some((head, tail)),
        !tail.contains(c) ==> cut_at_last(head + seq![c] + tail, c) == Some((head, tail)),
        !head.contains(c) ==> cut_at_first(head, c) is None && cut_at_last(head, c) is None,
{
    let s = head + seq![c] + tail;
    let at = head.len() as int;
    assert(s[at] == c);
    assert(s.contains(c));
    s.index_of_first_ensures(c);
    s.index_of_last_ensures(c);
    head.index_of_first_ensures(c);
    head.index_of_last_ensures(c);
    let (first, last) = (s.index_of_first(c)->0, s.index_of_last(c)->0);
    if !head.contains(c) {
        if first < at {
            assert(s[first] == head[first]);
        }
        assert(s.take(at) =~= head);
        assert(s.skip(at + 1) =~= tail);
    }
    if !tail.contains(c) {
        if last > at {
            assert(s[last] == tail[last - at - 1]);
        }
        assert(s.take(at) =~= head);
        assert(s.skip(at + 1) =~= tail);
    }
}

pub fn split_once<'a>(s: &'a str, c: char) -> (result: Option<(&'a str, &'a str)>)
    ensures
        result.deep_view() == cut_at_first(s@, c),
{
    match find(s, c) {
        Some(i) => Some((head(s, i), tail(s, i + 1))),
        None => None,
    }
}

pub fn split_once_last<'a>(s: &'a str, c: char) -> (result: Option<(&'a str, &'a str)>)
    ensures
        result.deep_view() == cut_at_last(s@, c),
{
    match find_last(s, c) {
        Some(i) => Some((head(s, i), tail(s, i + 1))),
        None => None,
    }
}

/// The pieces of `s` between the places where `c` stands.
pub open spec fn pieces(s: Text, c: char) -> Seq<Text>
    decreases s.len(),
{
    match s.index_of_first(c) {
        Some(i) => if 0 <= i < s.len() {
            seq![s.take(i)] + pieces(s.skip(i + 1), c)
        } else {
            seq![s]
        },
        None => seq![s],
    }
}

pub fn split(s: &str, c: char) -> (result: Vec<String>)
    ensures
        result.deep_view() == pieces(s@, c),
{
    let mut result: Vec<String> = Vec::new();
    let mut rest: &str = s;
    loop
        invariant
            result.deep_view() + pieces(rest@, c) == pieces(s@, c),
        decreases rest@.len(),
    {
        let ghost before = result.deep_view();
        match find(rest, c) {
            Some(i) => {
                let ghost old_rest = rest@;
                result.push(head(rest, i).to_owned());
                rest = tail(rest, i + 1);
                assert(result.deep_view() =~= before.push(old_rest.take(i as int)));
                assert(result.deep_view() + pieces(rest@, c) =~= before + pieces(old_rest, c));
            },
            None => {
                result.push(rest.to_owned());
                assert(result.deep_view() =~= before + seq![rest@]);
                return result;
            },
        }
    }
}

/// `parts` in a row with `separator` between them.
pub open spec fn joined(parts: Seq<Text>, separator: Text) -> Text
    decreases parts.len(),
{
    if parts.len() == 0 {
        Seq::empty()
    } else if parts.len() == 1 {
        parts[0]
    } else {
        joined(parts.drop_last(), separator) + separator + parts.last()
    }
}

pub fn join(parts: &Vec<String>, separator: &str) -> (result: String)
    ensures
        result@ == joined(parts.deep_view(), separator@),
{
    let mut result: String = String::new();
    let mut i: usize = 0;
    while i < parts.len()
        invariant
            i <= parts.len(),
            result@ == joined(parts.deep_view().take(i as int), separator@),
        decreases parts.len() - i,
    {
        let ghost all = parts.deep_view();
        assert(all.take(i + 1).drop_last() =~= all.take(i as int));
        if i > 0 {
            result.append(separator);
        }
        result.append(parts[i].as_str());
        i += 1;
        assert(result@ =~= joined(all.take(i as int), separator@));
    }
    assert(parts.deep_view().take(i as int) =~= parts.deep_view());
    result
}

/// The characters that Unicode counts as white space.
pub open spec fn is_space(c: char) -> bool {
    let n = c as u32;
    9 <= n <= 13 || n == 0x20 || n == 0x85 || n == 0xA0 || n == 0x1680 || 0x2000 <= n <= 0x200A || n == 0x2028 || n
        == 0x2029 || n == 0x202F || n == 0x205F || n == 0x3000
}

pub open spec fn trimmed_start(s: Text) -> Text
    decreases s.len(),
{
    if s.len() > 0 && is_space(s[0]) {
        trimmed_start(s.skip(1))
    } else {
        s
    }
}

pub open spec fn trimmed_end(s: Text) -> Text
    decreases s.len(),
{
    if s.len() > 0 && is_space(s.last()) {
        trimmed_end(s.drop_last())
    } else {
        s
    }
}

/// `s` without white space at either end.
pub open spec fn trimmed(s: Text) -> Text {
    trimmed_end(trimmed_start(s))
}

/// Whether `c` is white space.
pub fn space(c: char) -> (result: bool)
    ensures
        result == is_space(c),
{
    let n: u32 = c as u32;
    (9 <= n && n <= 13) || n == 0x20 || n == 0x85 || n == 0xA0 || n == 0x1680 || (0x2000 <= n && n <= 0x200A) || n
        == 0x2028 || n == 0x2029 || n == 0x202F || n == 0x205F || n == 0x3000
}

pub fn trim(s: &str) -> (result: &str)
    ensures
        result@ == trimmed(s@),
{
    let cs = chars(s);
    let mut from: usize = 0;
    assert(s@.skip(0) =~= s@);
    while from < cs.len() && space(cs[from])
        invariant
            from <= cs.len(),
            cs@ == s@,
            trimmed_start(s@) == trimmed_start(s@.skip(from as int)),
        decreases cs.len() - from,
    {
        assert(s@.skip(from as int).skip(1) =~= s@.skip(from + 1));
        from += 1;
    }
    let ghost rest = s@.skip(from as int);
    assert(trimmed_start(s@) == rest);
    let mut to: usize = cs.len();
    assert(s@.subrange(from as int, to as int) =~= rest);
    while to > from && space(cs[to - 1])
        invariant
            from <= to <= cs.len(),
            cs@ == s@,
            trimmed_end(rest) == trimmed_end(s@.subrange(from as int, to as int)),
        decreases to,
    {
        assert(s@.subrange(from as int, to as int).drop_last() =~= s@.subrange(from as int, to - 1));
        to -= 1;
    }
    assert(trimmed_end(rest) == s@.subrange(from as int, to as int));
    part(s, from, to)
}

/// `s` with `with` in place of every `c`.
pub open spec fn replaced(s: Text, c: char, with: Text) -> Text
    decreases s.len(),
{
    if s.len() == 0 {
        s
    } else {
        replaced(s.drop_last(), c, with) + if s.last() == c {
            with
        } else {
            seq![s.last()]
        }
    }
}

pub fn replace(s: &str, c: char, with: &str) -> (result: String)
    ensures
        result@ == replaced(s@, c, with@),
{
    let mut result: String = String::new();
    let cs = chars(s);
    let mut i: usize = 0;
    while i < cs.len()
        invariant
            i <= cs.len(),
            cs@ == s@,
            result@ == replaced(s@.take(i as int), c, with@),
        decreases cs.len() - i,
    {
        assert(s@.take(i + 1).drop_last() =~= s@.take(i as int));
        if cs[i] == c {
            result.append(with);
        } else {
            result.append(part(s, i, i + 1));
            assert(s@.subrange(i as int, i + 1) =~= seq![s@[i as int]]);
        }
        i += 1;
    }
    assert(s@.take(i as int) =~= s@);
    result
}

/// The digit for `n`.
pub open spec fn digit(n: nat) -> char {
    "0123456789"@[n as int]
}

/// `n` in decimal notation.
pub open spec fn decimal(n: nat) -> Text
    decreases n,
{
    if n < 10 {
        seq![digit(n)]
    } else {
        decimal(n / 10).push(digit(n % 10))
    }
}

pub fn number(n: u64) -> (result: String)
    ensures
        result@ == decimal(n as nat),
    decreases n,
{
    let digits = "0123456789";
    proof {
        reveal_strlit("0123456789");
    }
    let last: usize = (n % 10) as usize;
    let mut result: String = if n < 10 {
        String::new()
    } else {
        number(n / 10)
    };
    result.append(part(digits, last, last + 1));
    assert(digits@.subrange(last as int, last + 1) =~= seq![digit(last as nat)]);
    assert(result@ =~= decimal(n as nat));
    result
}

proof fn joined_from_front(parts: Seq<Text>, separator: Text)
    requires
        parts.len() > 1,
    ensures
        joined(parts, separator) == parts[0] + separator + joined(parts.skip(1), separator),
    decreases parts.len(),
{
    let shorter = parts.drop_last();
    let rest = parts.skip(1);
    if parts.len() == 2 {
        assert(shorter.len() == 1 && rest.len() == 1);
        assert(joined(shorter, separator) == parts[0] && joined(rest, separator) == parts[1]);
    } else {
        joined_from_front(shorter, separator);
        assert(shorter.skip(1) =~= rest.drop_last());
        assert(joined(parts, separator) =~= parts[0] + separator + joined(rest, separator));
    }
}

/// The pieces of a text hold nothing of what they were parted at, and make up the text again with that
/// between them.
pub proof fn pieces_make_up_text(s: Text, c: char)
    ensures
        pieces(s, c).len() > 0,
        forall|i: int| 0 <= i < pieces(s, c).len() ==> !(#[trigger] pieces(s, c)[i]).contains(c),
        joined(pieces(s, c), seq![c]) == s,
    decreases s.len(),
{
    s.index_of_first_ensures(c);
    let all = pieces(s, c);
    if let Some(at) = s.index_of_first(c) {
        let rest = s.skip(at + 1);
        pieces_make_up_text(rest, c);
        assert(all.skip(1) =~= pieces(rest, c));
        joined_from_front(all, seq![c]);
        assert(!s.take(at).contains(c)) by {
            if s.take(at).contains(c) {
                let k = s.take(at).index_of(c);
                assert(s[k] == c);
            }
        }
        assert forall|i: int| 0 <= i < all.len() implies !(#[trigger] all[i]).contains(c) by {
            if i > 0 {
                assert(all[i] == pieces(rest, c)[i - 1]);
            }
        }
        assert(s =~= s.take(at) + seq![c] + rest);
    } else {
        assert(all =~= seq![s]);
    }
}

/// Parts that are joined are told apart again, if none of them holds what stands between them.
pub proof fn joined_is_parted(parts: Seq<Text>, c: char)
    requires
        parts.len() > 0,
        forall|i: int| 0 <= i < parts.len() ==> !(#[trigger] parts[i]).contains(c),
    ensures
        pieces(joined(parts, seq![c]), c) == parts,
    decreases parts.len(),
{
    let s = joined(parts, seq![c]);
    s.index_of_first_ensures(c);
    assert(!parts[0].contains(c));
    if parts.len() == 1 {
        assert(pieces(s, c) =~= parts);
    } else {
        let rest = parts.skip(1);
        assert forall|i: int| 0 <= i < rest.len() implies !(#[trigger] rest[i]).contains(c) by {
            assert(rest[i] == parts[i + 1]);
        }
        joined_from_front(parts, seq![c]);
        joined_is_parted(rest, c);
        let at = parts[0].len() as int;
        assert(s[at] == c);
        assert(s.contains(c));
        assert forall|k: int| 0 <= k < at implies s[k] != c by {
            assert(s[k] == parts[0][k]);
        }
        assert(s.index_of_first(c) == Some(at));
        assert(s.take(at) =~= parts[0]);
        assert(s.skip(at + 1) =~= joined(rest, seq![c]));
        assert(pieces(s, c) =~= parts);
    }
}

/// What is trimmed has space at neither end, and nothing but space was taken off. What has none there
/// stays as it is.
pub proof fn only_space_is_trimmed(s: Text)
    ensures
        trimmed(s).len() > 0 ==> !is_space(trimmed(s)[0]) && !is_space(trimmed(s).last()),
        s.len() > 0 && !is_space(s[0]) && !is_space(s.last()) ==> trimmed(s) == s,
        exists|before: Text, after: Text|
            s == before + trimmed(s) + after && #[trigger] is_all_space(before) && #[trigger] is_all_space(after),
{
    trimmed_start_is(s);
    let rest = trimmed_start(s);
    trimmed_end_is(rest);
    let before = s.take(s.len() - rest.len());
    let after = rest.skip(trimmed(s).len() as int);
    assert(s =~= before + trimmed(s) + after);
    assert(is_all_space(before) && is_all_space(after));
    if trimmed(s).len() > 0 {
        assert(trimmed(s)[0] == rest[0]);
    }
}

/// There is nothing but space in `s`.
pub open spec fn is_all_space(s: Text) -> bool {
    forall|i: int| 0 <= i < s.len() ==> is_space(#[trigger] s[i])
}

proof fn trimmed_start_is(s: Text)
    ensures
        trimmed_start(s).len() <= s.len(),
        trimmed_start(s) == s.skip(s.len() - trimmed_start(s).len()),
        is_all_space(s.take(s.len() - trimmed_start(s).len())),
        trimmed_start(s).len() > 0 ==> !is_space(trimmed_start(s)[0]),
    decreases s.len(),
{
    if s.len() > 0 && is_space(s[0]) {
        let rest = s.skip(1);
        trimmed_start_is(rest);
        let n = s.len() - trimmed_start(s).len();
        assert(s.skip(n) =~= rest.skip(n - 1));
        assert forall|i: int| 0 <= i < s.take(n).len() implies is_space(#[trigger] s.take(n)[i]) by {
            if i > 0 {
                assert(s.take(n)[i] == rest.take(n - 1)[i - 1]);
            }
        }
    } else {
        assert(s.skip(0) =~= s);
    }
}

proof fn trimmed_end_is(s: Text)
    ensures
        trimmed_end(s).len() <= s.len(),
        trimmed_end(s) == s.take(trimmed_end(s).len() as int),
        is_all_space(s.skip(trimmed_end(s).len() as int)),
        trimmed_end(s).len() > 0 ==> !is_space(trimmed_end(s).last()),
    decreases s.len(),
{
    if s.len() > 0 && is_space(s.last()) {
        let rest = s.drop_last();
        trimmed_end_is(rest);
        let n = trimmed_end(s).len() as int;
        assert(s.take(n) =~= rest.take(n));
        assert forall|i: int| 0 <= i < s.skip(n).len() implies is_space(#[trigger] s.skip(n)[i]) by {
            if i < s.skip(n).len() - 1 {
                assert(s.skip(n)[i] == rest.skip(n)[i]);
            }
        }
    } else {
        assert(s.take(s.len() as int) =~= s);
    }
}

/// What a text of digits stands for, each worth ten times as much as the same digit on its right.
pub open spec fn digits_worth(s: Text) -> nat
    decreases s.len(),
{
    if s.len() == 0 {
        0
    } else {
        10 * digits_worth(s.drop_last()) + (s.last() as nat - '0' as nat) as nat
    }
}

/// A number is written in digits that stand for it, without zeros in front.
pub proof fn numbers_are_written(n: nat)
    ensures
        digits_worth(decimal(n)) == n,
        decimal(n).len() > 0,
        forall|i: int| 0 <= i < decimal(n).len() ==> '0' <= #[trigger] decimal(n)[i] <= '9',
        decimal(n).len() > 1 ==> decimal(n)[0] != '0',
    decreases n,
{
    reveal_strlit("0123456789");
    reveal_with_fuel(digits_worth, 2);
    if n < 10 {
        assert(decimal(n).drop_last() =~= Seq::<char>::empty());
    } else {
        numbers_are_written(n / 10);
        assert(decimal(n).drop_last() =~= decimal(n / 10));
        if n / 10 < 10 {
            assert(decimal(n)[0] == digit(n / 10));
        }
    }
}

} // verus!
