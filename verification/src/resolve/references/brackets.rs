//! Which peers an id names can be read from its brackets.
use vstd::prelude::*;

use crate::resolve::peers::suffix;
use crate::text::Text;

verus! {

/// How many brackets are open at the end of `s`.
pub open spec fn depth(s: Text) -> int
    decreases s.len(),
{
    if s.len() == 0 {
        0
    } else if s.last() == '(' {
        depth(s.drop_last()) + 1
    } else if s.last() == ')' {
        depth(s.drop_last()) - 1
    } else {
        depth(s.drop_last())
    }
}

/// Every bracket in `s` is opened and closed.
pub open spec fn is_balanced(s: Text) -> bool {
    depth(s) == 0 && forall|i: int| 0 <= i <= s.len() ==> depth(#[trigger] s.take(i)) >= 0
}

pub proof fn depth_adds_up(a: Text, b: Text)
    ensures
        depth(a + b) == depth(a) + depth(b),
    decreases b.len(),
{
    if b.len() == 0 {
        assert(a + b =~= a);
    } else {
        depth_adds_up(a, b.drop_last());
        assert((a + b).drop_last() =~= a + b.drop_last());
        assert((a + b).last() == b.last());
    }
}

pub proof fn plain_is_balanced(s: Text)
    requires
        !s.contains('('),
        !s.contains(')'),
    ensures
        is_balanced(s),
    decreases s.len(),
{
    if s.len() > 0 {
        let shorter = s.drop_last();
        assert(s[s.len() - 1] == s.last());
        assert forall|c: char| shorter.contains(c) implies s.contains(c) by {
            let i = shorter.index_of(c);
            assert(s[i] == c);
        }
        plain_is_balanced(shorter);
        assert forall|i: int| 0 <= i <= s.len() implies depth(#[trigger] s.take(i)) >= 0 by {
            if i < s.len() {
                assert(s.take(i) =~= shorter.take(i));
            } else {
                assert(s.take(i) =~= s);
            }
        }
    } else {
        assert forall|i: int| 0 <= i <= s.len() implies depth(#[trigger] s.take(i)) >= 0 by {
            assert(s.take(i) =~= s);
        }
    }
}

pub proof fn balanced_adds_up(a: Text, b: Text)
    requires
        is_balanced(a),
        is_balanced(b),
    ensures
        is_balanced(a + b),
{
    depth_adds_up(a, b);
    let s = a + b;
    assert forall|i: int| 0 <= i <= s.len() implies depth(#[trigger] s.take(i)) >= 0 by {
        if i <= a.len() {
            assert(s.take(i) =~= a.take(i));
        } else {
            assert(s.take(i) =~= a + b.take(i - a.len()));
            depth_adds_up(a, b.take(i - a.len()));
        }
    }
}

proof fn bracketed_is_balanced(x: Text)
    requires
        is_balanced(x),
    ensures
        is_balanced("("@ + x + ")"@),
        depth("("@) == 1,
        depth(")"@) == -1,
{
    reveal_strlit("(");
    reveal_strlit(")");
    let s = "("@ + x + ")"@;
    let none = Seq::<char>::empty();
    assert("("@.drop_last() =~= none && ")"@.drop_last() =~= none);
    assert(depth(none) == 0);
    depth_adds_up("("@, x);
    depth_adds_up("("@ + x, ")"@);
    assert forall|i: int| 0 <= i <= s.len() implies depth(#[trigger] s.take(i)) >= 0 by {
        if i == 0 {
            assert(s.take(i) =~= none);
        } else if i <= x.len() + 1 {
            assert(s.take(i) =~= "("@ + x.take(i - 1));
            depth_adds_up("("@, x.take(i - 1));
        } else {
            assert(s.take(i) =~= s);
        }
    }
}

pub proof fn suffix_is_balanced(names: Seq<Text>, visible: Map<Text, Text>)
    requires
        forall|i: int| 0 <= i < names.len() ==> is_balanced(visible[#[trigger] names[i]]),
    ensures
        is_balanced(suffix(names, visible)),
    decreases names.len(),
{
    if names.len() == 0 {
        plain_is_balanced(Seq::empty());
    } else {
        let shorter = names.drop_last();
        assert forall|i: int| 0 <= i < shorter.len() implies is_balanced(visible[#[trigger] shorter[i]]) by {
            assert(shorter[i] == names[i]);
        }
        suffix_is_balanced(shorter, visible);
        assert(is_balanced(visible[names[names.len() - 1]]));
        bracketed_is_balanced(visible[names.last()]);
        balanced_adds_up(suffix(shorter, visible), "("@ + visible[names.last()] + ")"@);
    }
}

/// The last bracket of two equal texts holds the same, unless one of them is longer.
proof fn last_is_no_longer(a: Text, x: Text, b: Text, y: Text)
    requires
        is_balanced(x),
        is_balanced(y),
        a + ("("@ + x + ")"@) == b + ("("@ + y + ")"@),
    ensures
        x.len() >= y.len(),
{
    reveal_strlit("(");
    reveal_strlit(")");
    let s = a + ("("@ + x + ")"@);
    let t = b + ("("@ + y + ")"@);
    assert(s.len() == a.len() + x.len() + 2 && t.len() == b.len() + y.len() + 2);
    if x.len() < y.len() {
        let n = a.len() - b.len() - 1;
        let before = y.take(n);
        bracketed_is_balanced(x);
        assert(y =~= before + "("@ + x) by {
            assert forall|i: int| 0 <= i < y.len() implies y[i] == (before + "("@ + x)[i] by {
                assert(t[b.len() + 1 + i] == y[i]);
                if i == n {
                    assert(s[a.len() as int] == '(');
                } else if i > n {
                    assert(s[a.len() + 1 + (i - n - 1)] == x[i - n - 1]);
                }
            }
        }
        depth_adds_up(before, "("@);
        depth_adds_up(before + "("@, x);
        assert(depth(y.take(n)) >= 0);
    }
}

proof fn last_is_same(a: Text, x: Text, b: Text, y: Text)
    requires
        is_balanced(x),
        is_balanced(y),
        a + ("("@ + x + ")"@) == b + ("("@ + y + ")"@),
    ensures
        x == y,
        a == b,
{
    reveal_strlit("(");
    reveal_strlit(")");
    last_is_no_longer(a, x, b, y);
    last_is_no_longer(b, y, a, x);
    let s = a + ("("@ + x + ")"@);
    let t = b + ("("@ + y + ")"@);
    assert(s.len() == a.len() + x.len() + 2 && t.len() == b.len() + y.len() + 2);
    assert(a.len() == b.len());
    assert forall|i: int| 0 <= i < a.len() implies a[i] == b[i] by {
        assert(s[i] == a[i] && t[i] == b[i]);
    }
    assert forall|i: int| 0 <= i < x.len() implies x[i] == y[i] by {
        assert(s[a.len() + 1 + i] == x[i] && t[b.len() + 1 + i] == y[i]);
    }
    assert(a =~= b && x =~= y);
}

/// The ids in brackets are the same in equal texts, one by one.
pub proof fn suffixes_name_same(m: Seq<Text>, v: Map<Text, Text>, n: Seq<Text>, w: Map<Text, Text>)
    requires
        forall|i: int| 0 <= i < m.len() ==> is_balanced(v[#[trigger] m[i]]),
        forall|i: int| 0 <= i < n.len() ==> is_balanced(w[#[trigger] n[i]]),
        suffix(m, v) == suffix(n, w),
    ensures
        m.len() == n.len(),
        forall|i: int| 0 <= i < m.len() ==> v[#[trigger] m[i]] == w[n[i]],
    decreases m.len() + n.len(),
{
    if m.len() > 0 && n.len() > 0 {
        let (a, b) = (m.drop_last(), n.drop_last());
        let (x, y) = (v[m.last()], w[n.last()]);
        assert(is_balanced(v[m[m.len() - 1]]) && is_balanced(w[n[n.len() - 1]]));
        last_is_same(suffix(a, v), x, suffix(b, w), y);
        assert forall|i: int| 0 <= i < a.len() implies is_balanced(v[#[trigger] a[i]]) by {
            assert(a[i] == m[i]);
        }
        assert forall|i: int| 0 <= i < b.len() implies is_balanced(w[#[trigger] b[i]]) by {
            assert(b[i] == n[i]);
        }
        suffixes_name_same(a, v, b, w);
        assert forall|i: int| 0 <= i < m.len() implies v[#[trigger] m[i]] == w[n[i]] by {
            if i < a.len() {
                assert(v[a[i]] == w[b[i]]);
                assert(a[i] == m[i] && b[i] == n[i]);
            }
        }
    } else {
        reveal_strlit("(");
        if m.len() > 0 {
            assert(suffix(m, v).len() > 0);
            assert(suffix(n, w).len() == 0);
        }
        if n.len() > 0 {
            assert(suffix(n, w).len() > 0);
            assert(suffix(m, v).len() == 0);
        }
    }
}

} // verus!
