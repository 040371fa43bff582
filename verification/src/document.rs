//! Edits to package.json that keep its layout.
use vstd::prelude::*;

use crate::error::Error;
use crate::json::{object_meaning, Json, JsonView};
use crate::manifest::Group;
use crate::text::{
    cat, chars, head, less, pieces, same, split, text_less, text_less_total, text_less_transitive, trimmed_start, Text,
};

verus! {

/// The members of an object.
pub type Members = Seq<(Text, JsonView)>;

/// Where `key` first stands in `members`.
pub open spec fn member_at(members: Members, key: Text) -> Option<int>
    decreases members.len(),
{
    if members.len() == 0 {
        None
    } else if members[0].0 == key {
        Some(0)
    } else {
        match member_at(members.skip(1), key) {
            Some(i) => Some(i + 1),
            None => None,
        }
    }
}

/// `members` with `value` under `key`, in its old place if it had one.
pub open spec fn with_member(members: Members, key: Text, value: JsonView) -> Members {
    match member_at(members, key) {
        Some(i) => members.update(i, (key, value)),
        None => members.push((key, value)),
    }
}

/// `members` without `key`.
pub open spec fn without_member(members: Members, key: Text) -> Members {
    match member_at(members, key) {
        Some(i) => members.remove(i),
        None => members,
    }
}

/// The first place in `members` whose key comes behind `key`.
pub open spec fn place_for(members: Members, key: Text) -> int
    decreases members.len(),
{
    if members.len() == 0 || text_less(key, members[0].0) {
        0
    } else {
        1 + place_for(members.skip(1), key)
    }
}

/// `members` in the order of their keys.
pub open spec fn in_order(members: Members) -> Members
    decreases members.len(),
{
    if members.len() == 0 {
        members
    } else {
        let before = in_order(members.drop_last());
        before.insert(place_for(before, members.last().0), members.last())
    }
}

/// The dependencies in `group`.
pub open spec fn group_deps(members: Members, group: Group) -> Option<Members> {
    match member_at(members, group.member()) {
        Some(i) => if members[i].1 is Object {
            Some(members[i].1->Object_0)
        } else {
            None
        },
        None => None,
    }
}

/// `members` with `deps` as the dependencies in `group`.
pub open spec fn with_deps(members: Members, group: Group, deps: Members) -> Members {
    with_member(members, group.member(), JsonView::Object(deps))
}

/// `alias` is in `group`.
pub open spec fn has_dependency(members: Members, group: Group, alias: Text) -> bool {
    match group_deps(members, group) {
        Some(deps) => member_at(deps, alias) is Some,
        None => false,
    }
}

/// `members` without `alias` in `group`.
pub open spec fn removed_from(members: Members, group: Group, alias: Text) -> Members {
    match group_deps(members, group) {
        Some(deps) => with_deps(members, group, without_member(deps, alias)),
        None => members,
    }
}

/// `members` without `alias` in any group.
pub open spec fn removed(members: Members, alias: Text) -> Members {
    removed_from(
        removed_from(removed_from(members, Group::Prod, alias), Group::Dev, alias),
        Group::Optional,
        alias,
    )
}

/// `alias` is in any group.
pub open spec fn is_dependency(members: Members, alias: Text) -> bool {
    has_dependency(members, Group::Prod, alias) || has_dependency(members, Group::Dev, alias) || has_dependency(
        members,
        Group::Optional,
        alias,
    )
}

/// `members` with `alias` in `group` and no other, asking for `spec`. The group is put in order.
pub open spec fn with_dependency(members: Members, group: Group, alias: Text, spec: Text) -> Members {
    let rest = removed(members, alias);
    let deps = match group_deps(rest, group) {
        Some(deps) => deps,
        None => Seq::empty(),
    };
    with_deps(rest, group, in_order(with_member(deps, alias, JsonView::String(spec))))
}

/// A package.json that is being edited.
pub struct Document {
    path: String,
    original: String,
    members: Vec<(String, Json)>,
    indent: String,
}

/// What a `Document` means.
pub struct DocumentView {
    pub path: Text,
    pub original: Text,
    pub members: Members,
    pub indent: Text,
}

impl View for Document {
    type V = DocumentView;

    closed spec fn view(&self) -> DocumentView {
        DocumentView {
            path: self.path@,
            original: self.original@,
            members: self.members.deep_view(),
            indent: self.indent@,
        }
    }
}

proof fn member_at_bounds(members: Members, key: Text)
    ensures
        match member_at(members, key) {
            Some(i) => 0 <= i < members.len() && members[i].0 == key && forall|j: int|
                0 <= j < i ==> (#[trigger] members[j]).0 != key,
            None => forall|j: int| 0 <= j < members.len() ==> (#[trigger] members[j]).0 != key,
        },
    decreases members.len(),
{
    if members.len() > 0 && members[0].0 != key {
        member_at_bounds(members.skip(1), key);
        let rest = members.skip(1);
        assert forall|j: int| 0 < j < members.len() implies (#[trigger] members[j]) == rest[j - 1] by {}
    }
}

proof fn member_at_is(members: Members, key: Text, i: int)
    requires
        0 <= i < members.len(),
        members[i].0 == key,
        forall|j: int| 0 <= j < i ==> (#[trigger] members[j]).0 != key,
    ensures
        member_at(members, key) == Some(i),
{
    member_at_bounds(members, key);
    if let Some(k) = member_at(members, key) {
        if k < i {
            assert(members[k].0 != key);
        }
    } else {
        assert(members[i].0 != key);
    }
}

proof fn place_for_bounds(members: Members, key: Text)
    ensures
        0 <= place_for(members, key) <= members.len(),
    decreases members.len(),
{
    if members.len() > 0 && !text_less(key, members[0].0) {
        place_for_bounds(members.skip(1), key);
    }
}

proof fn groups_differ(a: Group, b: Group)
    requires
        a != b,
    ensures
        a.member() != b.member(),
{
    reveal_strlit("dependencies");
    reveal_strlit("devDependencies");
    reveal_strlit("optionalDependencies");
    assert("dependencies"@.len() == 12 && "devDependencies"@.len() == 15 && "optionalDependencies"@.len() == 20);
}

proof fn other_member_stays(members: Members, key: Text, value: JsonView, other: Text)
    requires
        key != other,
    ensures
        match member_at(members, other) {
            Some(i) => member_at(with_member(members, key, value), other) == Some(i) && with_member(
                members,
                key,
                value,
            )[i] == members[i],
            None => member_at(with_member(members, key, value), other) is None,
        },
{
    let after = with_member(members, key, value);
    member_at_bounds(members, key);
    member_at_bounds(members, other);
    match member_at(members, other) {
        Some(i) => {
            assert(after[i] == members[i]);
            assert forall|j: int| 0 <= j < i implies (#[trigger] after[j]).0 != other by {
                assert(members[j].0 != other);
            }
            member_at_is(after, other, i);
        },
        None => {
            member_at_bounds(after, other);
            if let Some(i) = member_at(after, other) {
                if i < members.len() {
                    assert(members[i].0 != other);
                }
            }
        },
    }
}

proof fn member_is_put(members: Members, key: Text, value: JsonView)
    ensures
        match member_at(with_member(members, key, value), key) {
            Some(i) => with_member(members, key, value)[i] == (key, value),
            None => false,
        },
{
    let after = with_member(members, key, value);
    member_at_bounds(members, key);
    match member_at(members, key) {
        Some(i) => {
            assert forall|j: int| 0 <= j < i implies (#[trigger] after[j]).0 != key by {
                assert(members[j].0 != key);
            }
            member_at_is(after, key, i);
        },
        None => {
            assert forall|j: int| 0 <= j < members.len() implies (#[trigger] after[j]).0 != key by {
                assert(members[j].0 != key);
            }
            member_at_is(after, key, members.len() as int);
        },
    }
}

/// Taking a dependency out of one group leaves the other groups as they are.
pub proof fn removal_keeps_group(members: Members, group: Group, other: Group, alias: Text)
    requires
        group != other,
    ensures
        group_deps(removed_from(members, group, alias), other) == group_deps(members, other),
{
    groups_differ(group, other);
    if let Some(deps) = group_deps(members, group) {
        other_member_stays(
            members,
            group.member(),
            JsonView::Object(without_member(deps, alias)),
            other.member(),
        );
    }
}

/// No key stands twice.
pub open spec fn keys_unique(members: Members) -> bool {
    forall|i: int, j: int|
        0 <= i < members.len() && 0 <= j < members.len() && i != j ==> (#[trigger] members[i]).0 != (#[trigger] members[j]).0
}

/// In no group does a dependency stand twice.
pub open spec fn deps_unique(members: Members) -> bool {
    forall|group: Group| (#[trigger] group_deps(members, group)) is Some ==> keys_unique(group_deps(members, group)->0)
}

proof fn removal_removes(members: Members, group: Group, alias: Text)
    requires
        deps_unique(members),
    ensures
        !has_dependency(removed_from(members, group, alias), group, alias),
        deps_unique(removed_from(members, group, alias)),
{
    let after = removed_from(members, group, alias);
    if let Some(deps) = group_deps(members, group) {
        let fewer = without_member(deps, alias);
        member_is_put(members, group.member(), JsonView::Object(fewer));
        assert(group_deps(after, group) == Some(fewer));
        member_at_bounds(deps, alias);
        member_at_bounds(fewer, alias);
        if let Some(i) = member_at(fewer, alias) {
            if let Some(k) = member_at(deps, alias) {
                let j = if i < k {
                    i
                } else {
                    i + 1
                };
                assert(fewer[i] == deps[j]);
                assert(deps[j].0 != deps[k].0);
            }
        }
        assert(keys_unique(fewer)) by {
            if let Some(k) = member_at(deps, alias) {
                assert forall|i: int, j: int| 0 <= i < fewer.len() && 0 <= j < fewer.len() && i != j implies (
                #[trigger] fewer[i]).0 != (#[trigger] fewer[j]).0 by {
                    let a = if i < k {
                        i
                    } else {
                        i + 1
                    };
                    let b = if j < k {
                        j
                    } else {
                        j + 1
                    };
                    assert(deps[a].0 != deps[b].0);
                }
            }
        }
    }
    assert forall|other: Group| (#[trigger] group_deps(after, other)) is Some implies keys_unique(
        group_deps(after, other)->0,
    ) by {
        if other != group {
            removal_keeps_group(members, group, other, alias);
            assert(group_deps(members, other) == group_deps(after, other));
        } else if group_deps(members, group) is None {
            assert(after == members);
        }
    }
}

/// A dependency that is removed is in no group afterwards.
pub proof fn removed_is_gone(members: Members, alias: Text)
    requires
        deps_unique(members),
    ensures
        !is_dependency(removed(members, alias), alias),
        deps_unique(removed(members, alias)),
{
    let one = removed_from(members, Group::Prod, alias);
    let two = removed_from(one, Group::Dev, alias);
    removal_removes(members, Group::Prod, alias);
    removal_removes(one, Group::Dev, alias);
    removal_removes(two, Group::Optional, alias);
    removal_keeps_group(one, Group::Dev, Group::Prod, alias);
    removal_keeps_group(two, Group::Optional, Group::Prod, alias);
    removal_keeps_group(two, Group::Optional, Group::Dev, alias);
}

proof fn in_order_keeps(members: Members)
    ensures
        in_order(members).len() == members.len(),
        forall|m: (Text, JsonView)| #[trigger] in_order(members).contains(m) == members.contains(m),
    decreases members.len(),
{
    if members.len() > 0 {
        let shorter = members.drop_last();
        let before = in_order(shorter);
        let last = members.last();
        let at = place_for(before, last.0);
        in_order_keeps(shorter);
        place_for_bounds(before, last.0);
        let after = before.insert(at, last);
        assert forall|m: (Text, JsonView)| #[trigger] after.contains(m) == members.contains(m) by {
            if after.contains(m) {
                let i = after.index_of(m);
                if i < at {
                    assert(before[i] == m);
                } else if i > at {
                    assert(before[i - 1] == m);
                }
                if i == at {
                    assert(members[members.len() - 1] == m);
                } else {
                    assert(before.contains(m));
                    assert(members[shorter.index_of(m)] == m);
                }
            }
            if members.contains(m) {
                let i = members.index_of(m);
                if i < members.len() - 1 {
                    assert(shorter[i] == m);
                    assert(before.contains(m));
                    let k = before.index_of(m);
                    if k < at {
                        assert(after[k] == m);
                    } else {
                        assert(after[k + 1] == m);
                    }
                } else {
                    assert(after[at] == m);
                }
            }
        }
    }
}

/// What is set is what is read: the dependency is in its group, asking for what was set, and in no
/// other group.
pub proof fn set_is_read(members: Members, group: Group, alias: Text, spec: Text)
    requires
        deps_unique(members),
    ensures
        ({
            let after = with_dependency(members, group, alias, spec);
            &&& group_deps(after, group) is Some
            &&& member_at(group_deps(after, group)->0, alias) is Some
            &&& (group_deps(after, group)->0)[member_at(group_deps(after, group)->0, alias)->0].1 == JsonView::String(
                spec,
            )
            &&& forall|other: Group| other != group ==> !#[trigger] has_dependency(after, other, alias)
        }),
{
    let rest = removed(members, alias);
    removed_is_gone(members, alias);
    let deps = match group_deps(rest, group) {
        Some(deps) => deps,
        None => Seq::empty(),
    };
    let value = JsonView::String(spec);
    let more = with_member(deps, alias, value);
    let ordered = in_order(more);
    let after = with_deps(rest, group, ordered);
    member_is_put(rest, group.member(), JsonView::Object(ordered));
    member_is_put(deps, alias, value);
    in_order_keeps(more);
    member_at_bounds(deps, alias);
    assert(!has_dependency(rest, group, alias)) by {
        assert(!is_dependency(rest, alias));
    }
    assert(more == deps.push((alias, value)));
    assert(more.contains((alias, value))) by {
        assert(more[deps.len() as int] == (alias, value));
    }
    assert(ordered.contains((alias, value)));
    member_at_bounds(ordered, alias);
    let k = ordered.index_of((alias, value));
    assert(ordered[k].0 == alias);
    let i = member_at(ordered, alias)->0;
    assert(ordered.contains(ordered[i]));
    assert(more.contains(ordered[i]));
    let j = more.index_of(ordered[i]);
    if j < deps.len() {
        assert(deps[j] == more[j]);
        assert(deps[j].0 != alias);
    }
    assert forall|other: Group| other != group implies !#[trigger] has_dependency(after, other, alias) by {
        groups_differ(group, other);
        other_member_stays(rest, group.member(), JsonView::Object(ordered), other.member());
        assert(!has_dependency(rest, other, alias)) by {
            assert(!is_dependency(rest, alias));
        }
    }
}

fn find_member(members: &Vec<(String, Json)>, key: &str) -> (result: Option<usize>)
    ensures
        match result {
            Some(i) => member_at(members.deep_view(), key@) == Some(i as int) && i < members@.len(),
            None => member_at(members.deep_view(), key@) is None,
        },
{
    let ghost all = members.deep_view();
    proof {
        member_at_bounds(all, key@);
    }
    let mut i: usize = 0;
    while i < members.len()
        invariant
            i <= members.len(),
            all == members.deep_view(),
            forall|j: int| 0 <= j < i ==> (#[trigger] all[j]).0 != key@,
        decreases members.len() - i,
    {
        assert(all[i as int].0 == members@[i as int].0@);
        if same(members[i].0.as_str(), key) {
            proof {
                member_at_is(all, key@, i as int);
            }
            return Some(i);
        }
        i += 1;
    }
    None
}

fn put_member(members: &mut Vec<(String, Json)>, key: &str, value: Json)
    ensures
        final(members).deep_view() == with_member(old(members).deep_view(), key@, value@),
{
    let ghost before = members.deep_view();
    let ghost meaning = value@;
    match find_member(members, key) {
        Some(i) => {
            members[i] = (key.to_owned(), value);
            assert(members.deep_view() =~= before.update(i as int, (key@, meaning)));
        },
        None => {
            members.push((key.to_owned(), value));
            assert(members.deep_view() =~= before.push((key@, meaning)));
        },
    }
}

fn sort_members(members: Vec<(String, Json)>) -> (result: Vec<(String, Json)>)
    ensures
        result.deep_view() == in_order(members.deep_view()),
{
    let ghost all = members.deep_view();
    let mut result: Vec<(String, Json)> = Vec::new();
    assert(result.deep_view() =~= in_order(all.take(0)));
    for member in it: members
        invariant
            it.seq() == members@,
            all == members.deep_view(),
            result.deep_view() == in_order(all.take(it.index() as int)),
    {
        let ghost k = it.index() as int;
        let ghost before = result.deep_view();
        let ghost meaning = member.deep_view();
        proof {
            assert(all.take(k + 1).drop_last() =~= all.take(k));
            assert(all[k] == meaning);
            assert(before.skip(0) =~= before);
        }
        let mut at: usize = 0;
        while at < result.len() && !less(member.0.as_str(), result[at].0.as_str())
            invariant
                at <= result.len(),
                before == result.deep_view(),
                meaning == member.deep_view(),
                place_for(before, meaning.0) == at + place_for(before.skip(at as int), meaning.0),
            decreases result.len() - at,
        {
            assert(before.skip(at as int).skip(1) =~= before.skip(at + 1));
            at += 1;
        }
        assert(place_for(before, meaning.0) == at);
        result.insert(at, member);
        assert(result.deep_view() =~= before.insert(at as int, meaning));
    }
    assert(all.take(all.len() as int) =~= all);
    result
}

/// Members are in the order of their keys.
pub open spec fn is_in_order(members: Members) -> bool {
    forall|i: int, j: int| 0 <= i < j < members.len() ==> !text_less((#[trigger] members[j]).0, (#[trigger] members[i]).0)
}

proof fn place_is_between(members: Members, key: Text)
    requires
        is_in_order(members),
    ensures
        0 <= place_for(members, key) <= members.len(),
        forall|i: int| 0 <= i < place_for(members, key) ==> !text_less(key, (#[trigger] members[i]).0),
        forall|i: int| place_for(members, key) <= i < members.len() ==> text_less(key, (#[trigger] members[i]).0),
    decreases members.len(),
{
    if members.len() > 0 && !text_less(key, members[0].0) {
        let rest = members.skip(1);
        assert forall|i: int, j: int| 0 <= i < j < rest.len() implies !text_less(
            (#[trigger] rest[j]).0,
            (#[trigger] rest[i]).0,
        ) by {
            assert(rest[j] == members[j + 1] && rest[i] == members[i + 1]);
        }
        place_is_between(rest, key);
        let at = place_for(members, key);
        assert forall|i: int| 0 <= i < at implies !text_less(key, (#[trigger] members[i]).0) by {
            if i > 0 {
                assert(members[i] == rest[i - 1]);
            }
        }
        assert forall|i: int| at <= i < members.len() implies text_less(key, (#[trigger] members[i]).0) by {
            assert(members[i] == rest[i - 1]);
        }
    } else if members.len() > 0 {
        assert forall|i: int| 0 <= i < members.len() implies text_less(key, (#[trigger] members[i]).0) by {
            if i > 0 {
                let (first, later) = (members[0].0, members[i].0);
                assert(!text_less(later, first));
                text_less_total(first, later);
                if first != later {
                    text_less_transitive(key, first, later);
                }
            }
        }
    }
}

/// Putting members in order orders them by their keys, and neither adds nor loses any.
pub proof fn order_is_kept(members: Members)
    ensures
        is_in_order(in_order(members)),
        in_order(members).to_multiset() == members.to_multiset(),
    decreases members.len(),
{
    if members.len() > 0 {
        let last = members.last();
        let before = in_order(members.drop_last());
        order_is_kept(members.drop_last());
        place_is_between(before, last.0);
        let at = place_for(before, last.0);
        let after = before.insert(at, last);
        assert forall|i: int, j: int| 0 <= i < j < after.len() implies !text_less(
            (#[trigger] after[j]).0,
            (#[trigger] after[i]).0,
        ) by {
            let (a, b) = (if i < at { before[i] } else if i == at { last } else { before[i - 1] }, if j < at {
                before[j]
            } else if j == at {
                last
            } else {
                before[j - 1]
            });
            assert(after[i] == a && after[j] == b);
            if i == at {
                assert(text_less(last.0, before[j - 1].0));
                text_less_total(last.0, before[j - 1].0);
            } else if j == at {
                assert(!text_less(last.0, before[i].0));
            }
        }
        vstd::seq_lib::to_multiset_insert(before, at, last);
        vstd::seq_lib::to_multiset_build(members.drop_last(), last);
        assert(members.drop_last().push(last) =~= members);
    }
}

/// `after` has the members of `before` in their places, all but the groups of dependencies as they
/// were, and no more than a group at its end.
pub open spec fn keeps_layout(before: Members, after: Members) -> bool {
    &&& before.len() <= after.len() <= before.len() + 1
    &&& forall|i: int|
        0 <= i < before.len() ==> (#[trigger] after[i]).0 == before[i].0 && (!is_group(before[i].0) ==> after[i]
            == before[i])
    &&& after.len() > before.len() ==> is_group(after.last().0)
}

/// `key` names a group of dependencies.
pub open spec fn is_group(key: Text) -> bool {
    exists|group: Group| #[trigger] group.member() == key
}

proof fn removal_keeps_layout(members: Members, group: Group, alias: Text)
    ensures
        removed_from(members, group, alias).len() == members.len(),
        keeps_layout(members, removed_from(members, group, alias)),
{
    member_at_bounds(members, group.member());
    assert(is_group(group.member()));
}

/// Edits keep everything but the dependencies as it was, and in its place.
pub proof fn edits_keep_layout(members: Members, group: Group, alias: Text, spec: Text)
    ensures
        keeps_layout(members, removed(members, alias)),
        removed(members, alias).len() == members.len(),
        keeps_layout(members, with_dependency(members, group, alias, spec)),
{
    let one = removed_from(members, Group::Prod, alias);
    let two = removed_from(one, Group::Dev, alias);
    let rest = removed(members, alias);
    removal_keeps_layout(members, Group::Prod, alias);
    removal_keeps_layout(one, Group::Dev, alias);
    removal_keeps_layout(two, Group::Optional, alias);
    assert forall|i: int| 0 <= i < members.len() implies (#[trigger] rest[i]).0 == members[i].0 && (!is_group(
        members[i].0,
    ) ==> rest[i] == members[i]) by {
        assert(one[i].0 == members[i].0 && two[i].0 == one[i].0 && rest[i].0 == two[i].0);
    }
    let after = with_dependency(members, group, alias, spec);
    member_at_bounds(rest, group.member());
    assert(is_group(group.member()));
    assert forall|i: int| 0 <= i < members.len() implies (#[trigger] after[i]).0 == members[i].0 && (!is_group(
        members[i].0,
    ) ==> after[i] == members[i]) by {
        assert(rest[i].0 == members[i].0);
    }
}

/// The lines of `source`, without what ends them.
pub open spec fn source_lines(source: Text) -> Seq<Text> {
    let parts = pieces(source, '\n');
    Seq::new(
        parts.len(),
        |i: int|
            if i < parts.len() - 1 && parts[i].len() > 0 && parts[i].last() == '\r' {
                parts[i].drop_last()
            } else {
                parts[i]
            },
    )
}

/// The white space that `line` begins with.
pub open spec fn indent_of(line: Text) -> Text {
    line.take(line.len() - trimmed_start(line).len())
}

/// The first indent in `lines` that is not empty, or two spaces.
pub open spec fn first_indent(lines: Seq<Text>) -> Text
    decreases lines.len(),
{
    if lines.len() == 0 {
        "  "@
    } else if indent_of(lines[0]).len() > 0 {
        indent_of(lines[0])
    } else {
        first_indent(lines.skip(1))
    }
}

fn leading_space(line: &str) -> (result: &str)
    ensures
        result@ == indent_of(line@),
{
    let cs = chars(line);
    let mut i: usize = 0;
    assert(line@.skip(0) =~= line@);
    while i < cs.len() && crate::text::space(cs[i])
        invariant
            i <= cs.len(),
            cs@ == line@,
            trimmed_start(line@) == trimmed_start(line@.skip(i as int)),
        decreases cs.len() - i,
    {
        assert(line@.skip(i as int).skip(1) =~= line@.skip(i + 1));
        i += 1;
    }
    assert(trimmed_start(line@) == line@.skip(i as int));
    head(line, i)
}

/// How `source` is indented.
pub fn detect_indent(source: &str) -> (result: String)
    ensures
        result@ == first_indent(source_lines(source@)),
{
    let parts = split(source, '\n');
    let ghost lines = source_lines(source@);
    let n: usize = parts.len();
    let mut i: usize = 0;
    assert(parts.deep_view().len() == n);
    assert(lines.skip(0) =~= lines);
    while i < n
        invariant
            i <= n,
            n == parts@.len(),
            n == lines.len(),
            parts.deep_view() == pieces(source@, '\n'),
            lines == source_lines(source@),
            first_indent(lines) == first_indent(lines.skip(i as int)),
        decreases n - i,
    {
        let whole = parts[i].as_str();
        let m: usize = vstd::string::StrSliceExecFns::unicode_len(whole);
        assert(parts.deep_view()[i as int] == whole@);
        let line = if i < n - 1 && m > 0 && vstd::string::StrSliceExecFns::get_char(whole, m - 1) == '\r' {
            assert(whole@.take(m - 1) =~= whole@.drop_last());
            head(whole, m - 1)
        } else {
            whole
        };
        assert(line@ == lines[i as int]);
        assert(lines.skip(i as int)[0] == line@);
        assert(lines.skip(i as int).skip(1) =~= lines.skip(i + 1));
        let indent = leading_space(line);
        if !indent.is_empty() {
            return indent.to_owned();
        }
        i += 1;
    }
    "  ".to_owned()
}

impl Document {
    /// Opens the package.json at `path`, whose source has been read as `value`.
    pub fn open(path: &str, original: &str, value: Json) -> (result: Result<Document, Error>)
        ensures
            match result {
                Ok(document) => value@ is Object && document@ == (DocumentView {
                    path: path@,
                    original: original@,
                    members: value@->Object_0,
                    indent: first_indent(source_lines(original@)),
                }),
                Err(error) => !(value@ is Object) && error@ == seq![path@ + " is not a JSON object"@],
            },
    {
        match value {
            Json::Object(members) => {
                proof {
                    object_meaning(members);
                }
                Ok(
                    Document {
                        path: path.to_owned(),
                        original: original.to_owned(),
                        members,
                        indent: detect_indent(original),
                    },
                )
            },
            _ => Err(Error::new(cat(path, " is not a JSON object"))),
        }
    }

    /// The file that this was read from.
    pub fn path(&self) -> (result: &str)
        ensures
            result@ == self@.path,
    {
        self.path.as_str()
    }

    /// The source as it was before any edit.
    pub fn original(&self) -> (result: &str)
        ensures
            result@ == self@.original,
    {
        self.original.as_str()
    }

    /// What each level is indented by.
    pub fn indent(&self) -> (result: &str)
        ensures
            result@ == self@.indent,
    {
        self.indent.as_str()
    }

    /// What is to be written.
    pub fn members(&self) -> (result: &Vec<(String, Json)>)
        ensures
            result.deep_view() == self@.members,
    {
        &self.members
    }

    /// Takes `alias` out of `group`, and tells whether it was there.
    fn remove_from(&mut self, group: Group, alias: &str) -> (result: bool)
        ensures
            final(self)@ == (DocumentView {
                members: removed_from(old(self)@.members, group, alias@),
                ..old(self)@
            }),
            result == has_dependency(old(self)@.members, group, alias@),
    {
        let ghost before = self@.members;
        if let Some(i) = find_member(&self.members, group.key()) {
            let mut value = Json::Null;
            core::mem::swap(&mut self.members[i].1, &mut value);
            assert(before[i as int].1 == value@);
            match value {
                Json::Object(mut deps) => {
                    let ghost old_deps = deps.deep_view();
                    proof {
                        object_meaning(deps);
                    }
                    let found = find_member(&deps, alias);
                    if let Some(k) = found {
                        let _ = deps.remove(k);
                        assert(deps.deep_view() =~= old_deps.remove(k as int));
                    }
                    proof {
                        object_meaning(deps);
                    }
                    let ghost new_deps = deps.deep_view();
                    let mut value = Json::Object(deps);
                    core::mem::swap(&mut self.members[i].1, &mut value);
                    proof {
                        member_at_bounds(before, group.member());
                        assert(self@.members =~= before.update(
                            i as int,
                            (group.member(), JsonView::Object(new_deps)),
                        ));
                    }
                    return found.is_some();
                },
                other => {
                    let mut value = other;
                    core::mem::swap(&mut self.members[i].1, &mut value);
                    assert(self@.members =~= before);
                },
            }
        }
        false
    }

    /// Takes `alias` out of every group, and tells whether it was in any.
    pub fn remove_dependency(&mut self, alias: &str) -> (result: bool)
        ensures
            final(self)@ == (DocumentView { members: removed(old(self)@.members, alias@), ..old(self)@ }),
            result == is_dependency(old(self)@.members, alias@),
    {
        proof {
            let members = self@.members;
            removal_keeps_group(members, Group::Prod, Group::Dev, alias@);
            removal_keeps_group(members, Group::Prod, Group::Optional, alias@);
            removal_keeps_group(
                removed_from(members, Group::Prod, alias@),
                Group::Dev,
                Group::Optional,
                alias@,
            );
        }
        let prod = self.remove_from(Group::Prod, alias);
        let dev = self.remove_from(Group::Dev, alias);
        let optional = self.remove_from(Group::Optional, alias);
        prod || dev || optional
    }

    /// Makes `alias` a dependency in `group` and no other.
    pub fn set_dependency(&mut self, group: Group, alias: &str, spec: &str)
        ensures
            final(self)@ == (DocumentView {
                members: with_dependency(old(self)@.members, group, alias@, spec@),
                ..old(self)@
            }),
    {
        let _ = self.remove_dependency(alias);
        let ghost rest = self@.members;
        let mut deps: Vec<(String, Json)> = Vec::new();
        assert(deps.deep_view() =~= Seq::<(Text, JsonView)>::empty());
        if let Some(i) = find_member(&self.members, group.key()) {
            let mut value = Json::Null;
            core::mem::swap(&mut self.members[i].1, &mut value);
            assert(rest[i as int].1 == value@);
            let ghost emptied = self@.members;
            proof {
                member_at_bounds(rest, group.member());
                assert(emptied =~= rest.update(i as int, (group.member(), JsonView::Null)));
                member_at_is(emptied, group.member(), i as int);
            }
            if let Json::Object(found) = value {
                proof {
                    object_meaning(found);
                }
                deps = found;
            }
        }
        let ghost emptied = self@.members;
        let ghost old_deps = deps.deep_view();
        put_member(&mut deps, alias, Json::String(spec.to_owned()));
        let deps = sort_members(deps);
        let ghost new_deps = deps.deep_view();
        proof {
            object_meaning(deps);
        }
        put_member(&mut self.members, group.key(), Json::Object(deps));
        proof {
            assert(with_member(emptied, group.member(), JsonView::Object(new_deps)) =~= with_member(
                rest,
                group.member(),
                JsonView::Object(new_deps),
            ));
        }
    }
}

/// What stands under `key`.
pub open spec fn value_at(members: Members, key: Text) -> Option<JsonView> {
    match member_at(members, key) {
        Some(i) => Some(members[i].1),
        None => None,
    }
}

/// What is asked for under `alias` in `group`.
pub open spec fn dependency_in(members: Members, group: Group, alias: Text) -> Option<JsonView> {
    match group_deps(members, group) {
        Some(deps) => value_at(deps, alias),
        None => None,
    }
}

proof fn removal_keeps_value(members: Members, key: Text, other: Text)
    requires
        key != other,
    ensures
        value_at(without_member(members, key), other) == value_at(members, other),
{
    let after = without_member(members, key);
    member_at_bounds(members, key);
    member_at_bounds(members, other);
    if let Some(at) = member_at(members, key) {
        match member_at(members, other) {
            Some(i) => {
                let k = if i < at {
                    i
                } else {
                    i - 1
                };
                assert(after[k] == members[i]);
                assert forall|j: int| 0 <= j < k implies (#[trigger] after[j]).0 != other by {
                    let from = if j < at {
                        j
                    } else {
                        j + 1
                    };
                    assert(after[j] == members[from]);
                }
                member_at_is(after, other, k);
            },
            None => {
                member_at_bounds(after, other);
                if let Some(k) = member_at(after, other) {
                    let from = if k < at {
                        k
                    } else {
                        k + 1
                    };
                    assert(after[k] == members[from]);
                }
            },
        }
    }
}

proof fn order_keeps_value(members: Members, key: Text)
    requires
        keys_unique(members),
    ensures
        value_at(in_order(members), key) == value_at(members, key),
{
    let ordered = in_order(members);
    in_order_keeps(members);
    member_at_bounds(members, key);
    member_at_bounds(ordered, key);
    if let Some(k) = member_at(ordered, key) {
        assert(ordered.contains(ordered[k]));
        assert(members.contains(ordered[k]));
        let i = members.index_of(ordered[k]);
        let first = member_at(members, key)->0;
        assert(members[i].0 == members[first].0);
        assert(i == first);
    } else if let Some(i) = member_at(members, key) {
        assert(members.contains(members[i]));
        assert(ordered.contains(members[i]));
        let k = ordered.index_of(members[i]);
        assert(ordered[k].0 != key);
    }
}

proof fn group_removal_keeps_others(members: Members, from: Group, group: Group, alias: Text, other: Text)
    requires
        alias != other,
    ensures
        dependency_in(removed_from(members, from, alias), group, other) == dependency_in(members, group, other),
{
    if group != from {
        removal_keeps_group(members, from, group, alias);
    } else if let Some(deps) = group_deps(members, group) {
        member_is_put(members, group.member(), JsonView::Object(without_member(deps, alias)));
        removal_keeps_value(deps, alias, other);
    }
}

/// Removing a dependency, or setting one, leaves every other dependency in every group as it was.
pub proof fn other_dependencies_stay(
    members: Members,
    into: Group,
    group: Group,
    alias: Text,
    spec: Text,
    other: Text,
)
    requires
        alias != other,
        deps_unique(members),
    ensures
        dependency_in(removed(members, alias), group, other) == dependency_in(members, group, other),
        dependency_in(with_dependency(members, into, alias, spec), group, other) == dependency_in(
            members,
            group,
            other,
        ),
{
    let one = removed_from(members, Group::Prod, alias);
    let two = removed_from(one, Group::Dev, alias);
    let rest = removed(members, alias);
    group_removal_keeps_others(members, Group::Prod, group, alias, other);
    group_removal_keeps_others(one, Group::Dev, group, alias, other);
    group_removal_keeps_others(two, Group::Optional, group, alias, other);
    removed_is_gone(members, alias);
    let deps = match group_deps(rest, into) {
        Some(deps) => deps,
        None => Seq::empty(),
    };
    let value = JsonView::String(spec);
    let more = with_member(deps, alias, value);
    let ordered = in_order(more);
    if group != into {
        groups_differ(into, group);
        other_member_stays(rest, into.member(), JsonView::Object(ordered), group.member());
    } else {
        member_is_put(rest, group.member(), JsonView::Object(ordered));
        member_at_bounds(deps, alias);
        assert(!has_dependency(rest, into, alias)) by {
            assert(!is_dependency(rest, alias));
        }
        assert(more == deps.push((alias, value)));
        assert(keys_unique(deps));
        assert(keys_unique(more)) by {
            assert forall|i: int, j: int| 0 <= i < more.len() && 0 <= j < more.len() && i != j implies (
            #[trigger] more[i]).0 != (#[trigger] more[j]).0 by {
                if i < deps.len() && j < deps.len() {
                    assert(deps[i].0 != deps[j].0);
                } else if i < deps.len() {
                    assert(deps[i].0 != alias);
                } else {
                    assert(deps[j].0 != alias);
                }
            }
        }
        order_keeps_value(more, other);
        other_member_stays(deps, alias, value, other);
    }
}

/// Setting a dependency keeps every dependency from standing twice in a group.
pub proof fn set_keeps_unique(members: Members, group: Group, alias: Text, spec: Text)
    requires
        deps_unique(members),
    ensures
        deps_unique(with_dependency(members, group, alias, spec)),
{
    let rest = removed(members, alias);
    removed_is_gone(members, alias);
    let deps = match group_deps(rest, group) {
        Some(deps) => deps,
        None => Seq::empty(),
    };
    let value = JsonView::String(spec);
    let more = with_member(deps, alias, value);
    let ordered = in_order(more);
    let after = with_dependency(members, group, alias, spec);
    member_is_put(rest, group.member(), JsonView::Object(ordered));
    member_at_bounds(deps, alias);
    assert(!has_dependency(rest, group, alias)) by {
        assert(!is_dependency(rest, alias));
    }
    assert(more == deps.push((alias, value)));
    assert(keys_unique(deps));
    assert(keys_unique(more)) by {
        assert forall|i: int, j: int| 0 <= i < more.len() && 0 <= j < more.len() && i != j implies (
        #[trigger] more[i]).0 != (#[trigger] more[j]).0 by {
            if i < deps.len() && j < deps.len() {
                assert(deps[i].0 != deps[j].0);
            } else if i < deps.len() {
                assert(deps[i].0 != alias);
            } else {
                assert(deps[j].0 != alias);
            }
        }
    }
    order_keeps_unique(more);
    assert forall|other: Group| (#[trigger] group_deps(after, other)) is Some implies keys_unique(
        group_deps(after, other)->0,
    ) by {
        if other != group {
            groups_differ(group, other);
            other_member_stays(rest, group.member(), JsonView::Object(ordered), other.member());
            assert(group_deps(rest, other) == group_deps(after, other));
        }
    }
}

proof fn order_keeps_unique(members: Members)
    requires
        keys_unique(members),
    ensures
        keys_unique(in_order(members)),
    decreases members.len(),
{
    if members.len() > 0 {
        let shorter = members.drop_last();
        let last = members.last();
        assert(keys_unique(shorter)) by {
            assert forall|i: int, j: int| 0 <= i < shorter.len() && 0 <= j < shorter.len() && i != j implies (
            #[trigger] shorter[i]).0 != (#[trigger] shorter[j]).0 by {
                assert(members[i].0 != members[j].0);
            }
        }
        order_keeps_unique(shorter);
        let before = in_order(shorter);
        in_order_keeps(shorter);
        let at = place_for(before, last.0);
        place_for_bounds(before, last.0);
        let after = before.insert(at, last);
        assert forall|k: int| 0 <= k < before.len() implies (#[trigger] before[k]).0 != last.0 by {
            assert(before.contains(before[k]));
            assert(shorter.contains(before[k]));
            let i = shorter.index_of(before[k]);
            assert(members[i].0 != members[members.len() - 1].0);
        }
        assert forall|i: int, j: int| 0 <= i < after.len() && 0 <= j < after.len() && i != j implies (
        #[trigger] after[i]).0 != (#[trigger] after[j]).0 by {
            let a = if i < at {
                i
            } else {
                i - 1
            };
            let b = if j < at {
                j
            } else {
                j - 1
            };
            if i != at {
                assert(after[i] == before[a]);
            }
            if j != at {
                assert(after[j] == before[b]);
            }
            if i != at && j != at {
                assert(before[a].0 != before[b].0);
            }
        }
    }
}

} // verus!
