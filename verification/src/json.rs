//! JSON values.
use vstd::prelude::*;

use crate::dict::Duplicate;
use crate::text::{same, Text};

verus! {

/// A JSON value. An object keeps its members in the order in which they were written; a number is
/// kept as its text.
#[derive(Debug, PartialEq, Eq)]
pub enum Json {
    Null,
    Bool(bool),
    Number(String),
    String(String),
    Array(Vec<Json>),
    Object(Vec<(String, Json)>),
}

/// What a `Json` means.
pub enum JsonView {
    Null,
    Bool(bool),
    Number(Text),
    String(Text),
    Array(Seq<JsonView>),
    Object(Seq<(Text, JsonView)>),
}

impl Json {
    pub open spec fn meaning(&self) -> JsonView
        decreases self,
    {
        match self {
            Json::Null => JsonView::Null,
            Json::Bool(value) => JsonView::Bool(*value),
            Json::Number(text) => JsonView::Number(text@),
            Json::String(text) => JsonView::String(text@),
            Json::Array(items) => JsonView::Array(
                Seq::new(
                    items@.len(),
                    |i: int|
                        if 0 <= i < items@.len() {
                            items@[i].meaning()
                        } else {
                            JsonView::Null
                        },
                ),
            ),
            Json::Object(members) => JsonView::Object(
                Seq::new(
                    members@.len(),
                    |i: int|
                        if 0 <= i < members@.len() {
                            (members@[i].0@, members@[i].1.meaning())
                        } else {
                            (Seq::empty(), JsonView::Null)
                        },
                ),
            ),
        }
    }
}

impl View for Json {
    type V = JsonView;

    open spec fn view(&self) -> JsonView {
        self.meaning()
    }
}

impl DeepView for Json {
    type V = JsonView;

    open spec fn deep_view(&self) -> JsonView {
        self.meaning()
    }
}

/// What `members` first hold under `key`.
pub open spec fn first_member(members: Seq<(Text, JsonView)>, key: Text) -> Option<JsonView>
    decreases members.len(),
{
    if members.len() == 0 {
        None
    } else if members[0].0 == key {
        Some(members[0].1)
    } else {
        first_member(members.skip(1), key)
    }
}

/// What an object holds under `key`.
pub open spec fn member(value: JsonView, key: Text) -> Option<JsonView> {
    match value {
        JsonView::Object(members) => first_member(members, key),
        _ => None,
    }
}

impl Json {
    /// What this holds under `key`, if it is an object.
    pub fn get(&self, key: &str) -> (result: Option<&Json>)
        ensures
            result.deep_view() == member(self@, key@),
    {
        if let Json::Object(members) = self {
            let ghost all = self@->Object_0;
            let mut i: usize = 0;
            assert(all.skip(0) =~= all);
            while i < members.len()
                invariant
                    i <= members.len(),
                    *self == Json::Object(*members),
                    all == self@->Object_0,
                    first_member(all, key@) == first_member(all.skip(i as int), key@),
                decreases members.len() - i,
            {
                assert(all[i as int] == (members@[i as int].0@, members@[i as int].1.meaning()));
                assert(all.skip(i as int).skip(1) =~= all.skip(i + 1));
                if same(members[i].0.as_str(), key) {
                    return Some(&members[i].1);
                }
                i += 1;
            }
        }
        None
    }

    /// Whether this is an object that holds `member`.
    pub fn has(&self, member: &str) -> (result: bool)
        ensures
            result == (self@ is Object && exists|i: int|
                0 <= i < self@->Object_0.len() && (#[trigger] self@->Object_0[i]).0 == member@),
    {
        if let Json::Object(members) = self {
            let mut i: usize = 0;
            while i < members.len()
                invariant
                    i <= members.len(),
                    *self == Json::Object(*members),
                    forall|j: int| 0 <= j < i ==> (#[trigger] self@->Object_0[j]).0 != member@,
                decreases members.len() - i,
            {
                if same(members[i].0.as_str(), member) {
                    assert(self@->Object_0[i as int].0 == member@);
                    return true;
                }
                i += 1;
            }
        }
        false
    }
}

/// An object means what its members mean.
pub proof fn object_meaning(members: Vec<(String, Json)>)
    ensures
        Json::Object(members)@ == JsonView::Object(members.deep_view()),
{
    assert(Json::Object(members)@->Object_0 =~= members.deep_view());
}

impl Duplicate for Json {
    fn duplicate(&self) -> (result: Self)
        decreases self,
    {
        match self {
            Json::Null => Json::Null,
            Json::Bool(value) => Json::Bool(*value),
            Json::Number(text) => Json::Number(text.clone()),
            Json::String(text) => Json::String(text.clone()),
            Json::Array(items) => {
                let mut copies: Vec<Json> = Vec::new();
                let mut i: usize = 0;
                while i < items.len()
                    invariant
                        *self == Json::Array(*items),
                        i <= items.len(),
                        copies.len() == i,
                        forall|j: int| 0 <= j < i ==> #[trigger] copies@[j].meaning() == items@[j].meaning(),
                    decreases items.len() - i,
                {
                    assert(decreases_to!(*self => self->Array_0));
                    assert(decreases_to!(self->Array_0 => items@[i as int]));
                    let ghost before = copies@;
                    copies.push(items[i].duplicate());
                    assert(copies@ =~= before.push(copies@[i as int]));
                    i += 1;
                }
                let result = Json::Array(copies);
                assert forall|j: int| 0 <= j < items@.len() implies #[trigger] result.meaning()->Array_0[j]
                    == self.meaning()->Array_0[j] by {
                    assert(copies@[j].meaning() == items@[j].meaning());
                }
                assert(result.meaning()->Array_0 =~= self.meaning()->Array_0);
                result
            },
            Json::Object(members) => {
                let mut copies: Vec<(String, Json)> = Vec::new();
                let mut i: usize = 0;
                while i < members.len()
                    invariant
                        *self == Json::Object(*members),
                        i <= members.len(),
                        copies.len() == i,
                        forall|j: int|
                            0 <= j < i ==> #[trigger] copies@[j].0@ == members@[j].0@ && copies@[j].1.meaning()
                                == members@[j].1.meaning(),
                    decreases members.len() - i,
                {
                    assert(decreases_to!(*self => self->Object_0));
                    assert(decreases_to!(self->Object_0 => members@[i as int]));
                    assert(decreases_to!(members@[i as int] => members@[i as int].1));
                    copies.push((members[i].0.clone(), members[i].1.duplicate()));
                    i += 1;
                }
                let result = Json::Object(copies);
                assert(result.meaning()->Object_0 =~= self.meaning()->Object_0);
                result
            },
        }
    }
}

/// `a` and `b` are the same value. The order in which objects hold their members does not count.
pub open spec fn same_json(a: JsonView, b: JsonView) -> bool
    decreases a,
{
    match a {
        JsonView::Array(x) => b is Array && x.len() == b->Array_0.len() && forall|i: int|
            0 <= i < x.len() ==> same_json(#[trigger] x[i], b->Array_0[i]),
        JsonView::Object(x) => {
            &&& b is Object
            &&& forall|i: int| 0 <= i < x.len() ==> is_held(#[trigger] x[i], b->Object_0)
            &&& forall|j: int| 0 <= j < b->Object_0.len() ==> holds(x, #[trigger] b->Object_0[j])
        },
        _ => a == b,
    }
}

/// Among `y` is the same member as `m`.
pub open spec fn is_held(m: (Text, JsonView), y: Seq<(Text, JsonView)>) -> bool
    decreases m,
{
    exists|j: int| 0 <= j < y.len() && (#[trigger] y[j]).0 == m.0 && same_json(m.1, y[j].1)
}

/// Among `x` is the same member as `m`.
pub open spec fn holds(x: Seq<(Text, JsonView)>, m: (Text, JsonView)) -> bool
    decreases x,
{
    exists|i: int| 0 <= i < x.len() && (#[trigger] x[i]).0 == m.0 && same_json(x[i].1, m.1)
}

proof fn same_objects(x: Seq<(Text, JsonView)>, y: Seq<(Text, JsonView)>)
    ensures
        same_json(JsonView::Object(x), JsonView::Object(y)) == ((forall|i: int|
            0 <= i < x.len() ==> is_held(#[trigger] x[i], y)) && (forall|j: int|
            0 <= j < y.len() ==> holds(x, #[trigger] y[j]))),
{
    let (a, b) = (JsonView::Object(x), JsonView::Object(y));
    assert(a->Object_0 == x && b->Object_0 == y);
    if same_json(a, b) {
        assert forall|i: int| 0 <= i < x.len() implies is_held(#[trigger] x[i], y) by {
            assert(is_held(a->Object_0[i], b->Object_0));
        }
        assert forall|j: int| 0 <= j < y.len() implies holds(x, #[trigger] y[j]) by {
            assert(holds(a->Object_0, b->Object_0[j]));
        }
    }
}

/// Every value is the same as itself.
pub proof fn is_same_as_itself(a: JsonView)
    ensures
        same_json(a, a),
    decreases a,
{
    match a {
        JsonView::Array(x) => {
            assert forall|i: int| 0 <= i < x.len() implies same_json(#[trigger] x[i], x[i]) by {
                is_same_as_itself(x[i]);
            }
        },
        JsonView::Object(x) => {
            assert forall|i: int| 0 <= i < x.len() implies is_held(#[trigger] x[i], x) by {
                is_same_as_itself(x[i].1);
            }
            assert forall|i: int| 0 <= i < x.len() implies holds(x, #[trigger] x[i]) by {
                is_same_as_itself(x[i].1);
            }
            same_objects(x, x);
        },
        _ => {},
    }
}

/// Objects with the same members are the same, in whichever order they hold them.
pub proof fn order_does_not_count(x: Seq<(Text, JsonView)>, y: Seq<(Text, JsonView)>)
    requires
        forall|m: (Text, JsonView)| #[trigger] x.contains(m) == y.contains(m),
    ensures
        same_json(JsonView::Object(x), JsonView::Object(y)),
{
    assert forall|i: int| 0 <= i < x.len() implies is_held(#[trigger] x[i], y) by {
        assert(x.contains(x[i]));
        let j = y.index_of(x[i]);
        assert(y[j] == x[i]);
        is_same_as_itself(x[i].1);
    }
    assert forall|j: int| 0 <= j < y.len() implies holds(x, #[trigger] y[j]) by {
        assert(y.contains(y[j]));
        assert(x.contains(y[j]));
        let i = x.index_of(y[j]);
        assert(x[i] == y[j]);
        is_same_as_itself(y[j].1);
    }
    same_objects(x, y);
}

/// Whether `member` is also among `others`.
fn held(member: &(String, Json), others: &Vec<(String, Json)>) -> (result: bool)
    ensures
        result == is_held(member.deep_view(), others.deep_view()),
    decreases member, 0int,
{
    let ghost (m, y) = (member.deep_view(), others.deep_view());
    assert(m == (member.0@, member.1@));
    let mut j: usize = 0;
    while j < others.len()
        invariant
            m == (member.0@, member.1@),
            y == others.deep_view(),
            j <= others.len(),
            forall|k: int| 0 <= k < j ==> !((#[trigger] y[k]).0 == m.0 && same_json(m.1, y[k].1)),
        decreases others.len() - j,
    {
        assert(decreases_to!(*member => member.1));
        assert(y[j as int] == (others@[j as int].0@, others@[j as int].1@));
        if same(others[j].0.as_str(), member.0.as_str()) && member.1.same_value(&others[j].1) {
            return true;
        }
        j += 1;
    }
    false
}

/// Whether `member` is also among `members`.
fn found(members: &Vec<(String, Json)>, member: &(String, Json)) -> (result: bool)
    ensures
        result == holds(members.deep_view(), member.deep_view()),
    decreases members, 0int,
{
    let ghost (x, m) = (members.deep_view(), member.deep_view());
    assert(m == (member.0@, member.1@));
    let mut i: usize = 0;
    while i < members.len()
        invariant
            x == members.deep_view(),
            m == (member.0@, member.1@),
            i <= members.len(),
            forall|k: int| 0 <= k < i ==> !((#[trigger] x[k]).0 == m.0 && same_json(x[k].1, m.1)),
        decreases members.len() - i,
    {
        assert(decreases_to!(*members => members@[i as int]));
        assert(decreases_to!(members@[i as int] => members@[i as int].1));
        assert(x[i as int] == (members@[i as int].0@, members@[i as int].1@));
        if same(members[i].0.as_str(), member.0.as_str()) && members[i].1.same_value(&member.1) {
            return true;
        }
        i += 1;
    }
    false
}

impl Json {
    /// Whether this and `other` are the same value. The order in which objects hold their members does
    /// not count.
    pub fn same_value(&self, other: &Json) -> (result: bool)
        ensures
            result == same_json(self@, other@),
        decreases self, 0int,
    {
        match (self, other) {
            (Json::Null, Json::Null) => true,
            (Json::Bool(a), Json::Bool(b)) => *a == *b,
            (Json::Number(a), Json::Number(b)) => same(a.as_str(), b.as_str()),
            (Json::String(a), Json::String(b)) => same(a.as_str(), b.as_str()),
            (Json::Array(a), Json::Array(b)) => {
                let ghost (x, y) = (self@->Array_0, other@->Array_0);
                if a.len() != b.len() {
                    return false;
                }
                let mut i: usize = 0;
                while i < a.len()
                    invariant
                        *self == Json::Array(*a),
                        *other == Json::Array(*b),
                        x == self@->Array_0,
                        y == other@->Array_0,
                        i <= a.len(),
                        a.len() == b.len(),
                        forall|j: int| 0 <= j < i ==> same_json(#[trigger] x[j], y[j]),
                    decreases a.len() - i,
                {
                    assert(decreases_to!(*self => self->Array_0));
                    assert(decreases_to!(self->Array_0 => a@[i as int]));
                    assert(x[i as int] == a@[i as int]@ && y[i as int] == b@[i as int]@);
                    if !a[i].same_value(&b[i]) {
                        return false;
                    }
                    i += 1;
                }
                true
            },
            (Json::Object(a), Json::Object(b)) => {
                let ghost (x, y) = (a.deep_view(), b.deep_view());
                proof {
                    object_meaning(*a);
                    object_meaning(*b);
                    assert(decreases_to!(*self => self->Object_0));
                }
                let mut i: usize = 0;
                while i < a.len()
                    invariant
                        *self == Json::Object(*a),
                        decreases_to!(*self => *a),
                        x == a.deep_view(),
                        y == b.deep_view(),
                        self@ == JsonView::Object(x),
                        other@ == JsonView::Object(y),
                        i <= a.len(),
                        forall|k: int| 0 <= k < i ==> is_held(#[trigger] x[k], y),
                    decreases a.len() - i,
                {
                    assert(decreases_to!(*a => a@[i as int]));
                    assert(x[i as int] == a@[i as int].deep_view());
                    if !held(&a[i], b) {
                        proof {
                            assert(i < x.len() && !is_held(x[i as int], y));
                            same_objects(x, y);
                        }
                        return false;
                    }
                    i += 1;
                }
                let mut j: usize = 0;
                while j < b.len()
                    invariant
                        *self == Json::Object(*a),
                        decreases_to!(*self => *a),
                        x == a.deep_view(),
                        y == b.deep_view(),
                        self@ == JsonView::Object(x),
                        other@ == JsonView::Object(y),
                        j <= b.len(),
                        forall|k: int| 0 <= k < x.len() ==> is_held(#[trigger] x[k], y),
                        forall|k: int| 0 <= k < j ==> holds(x, #[trigger] y[k]),
                    decreases b.len() - j,
                {
                    assert(y[j as int] == b@[j as int].deep_view());
                    if !found(a, &b[j]) {
                        proof {
                            assert(j < y.len() && !holds(x, y[j as int]));
                            same_objects(x, y);
                        }
                        return false;
                    }
                    j += 1;
                }
                proof {
                    same_objects(x, y);
                }
                true
            },
            _ => false,
        }
    }
}

/// What an object holds under a key is what first stands there, and nothing only where the key does not
/// stand in it. Nothing else holds anything under a key.
pub proof fn first_member_counts(members: Seq<(Text, JsonView)>, key: Text)
    ensures
        match member(JsonView::Object(members), key) {
            Some(value) => exists|i: int|
                0 <= i < members.len() && #[trigger] members[i] == (key, value) && forall|j: int|
                    0 <= j < i ==> (#[trigger] members[j]).0 != key,
            None => forall|i: int| 0 <= i < members.len() ==> (#[trigger] members[i]).0 != key,
        },
    decreases members.len(),
{
    if members.len() > 0 {
        if members[0].0 == key {
            assert(members[0] == (key, members[0].1));
        } else {
            let rest = members.skip(1);
            first_member_counts(rest, key);
            assert forall|i: int| 0 < i < members.len() implies #[trigger] members[i] == rest[i - 1] by {}
            if let Some(value) = first_member(rest, key) {
                let i = choose|i: int|
                    0 <= i < rest.len() && #[trigger] rest[i] == (key, value) && forall|j: int|
                        0 <= j < i ==> (#[trigger] rest[j]).0 != key;
                assert(members[i + 1] == (key, value));
                assert forall|j: int| 0 <= j < i + 1 implies (#[trigger] members[j]).0 != key by {
                    if j > 0 {
                        assert(rest[j - 1].0 != key);
                    }
                }
            }
        }
    }
}

} // verus!
