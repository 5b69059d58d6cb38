//! The order of texts, and sorting by it.
use crate::text::{chars_of, views};
use vstd::prelude::*;

verus! {

/// Whether `a` comes before `b` when texts are compared character by character, a
/// beginning coming before what it begins.
pub open spec fn less(a: Seq<char>, b: Seq<char>) -> bool
    decreases a.len(),
{
    if b.len() == 0 {
        false
    } else if a.len() == 0 {
        true
    } else if a[0] != b[0] {
        a[0] < b[0]
    } else {
        less(a.drop_first(), b.drop_first())
    }
}

/// No text comes before itself, nor do two texts come before each other.
pub proof fn law_less_asymmetric(a: Seq<char>, b: Seq<char>)
    ensures
        !(less(a, b) && less(b, a)),
        !less(a, a),
    decreases a.len(),
{
    if a.len() > 0 {
        law_less_asymmetric(a.drop_first(), a.drop_first());
        if b.len() > 0 && a[0] == b[0] {
            law_less_asymmetric(a.drop_first(), b.drop_first());
        }
    }
}

/// The order of texts is transitive.
pub proof fn law_less_transitive(a: Seq<char>, b: Seq<char>, c: Seq<char>)
    requires
        less(a, b),
        less(b, c),
    ensures
        less(a, c),
    decreases a.len(),
{
    if a.len() > 0 && a[0] == b[0] && b[0] == c[0] {
        law_less_transitive(a.drop_first(), b.drop_first(), c.drop_first());
    }
}

/// Of two different texts one comes before the other.
pub proof fn law_less_total(a: Seq<char>, b: Seq<char>)
    ensures
        a == b || less(a, b) || less(b, a),
    decreases a.len(),
{
    if a.len() > 0 && b.len() > 0 && a[0] == b[0] {
        law_less_total(a.drop_first(), b.drop_first());
        if a.drop_first() == b.drop_first() {
            assert(a == seq![a[0]] + a.drop_first());
            assert(b == seq![b[0]] + b.drop_first());
        }
    } else if a.len() == 0 && b.len() == 0 {
        assert(a == b);
    }
}

/// Texts with a common beginning are ordered by what follows it.
pub proof fn lemma_less_after_prefix(p: Seq<char>, a: Seq<char>, b: Seq<char>)
    ensures
        less(p + a, p + b) == less(a, b),
    decreases p.len(),
{
    if p.len() == 0 {
        assert(p + a == a);
        assert(p + b == b);
    } else {
        assert((p + a).drop_first() == p.drop_first() + a);
        assert((p + b).drop_first() == p.drop_first() + b);
        lemma_less_after_prefix(p.drop_first(), a, b);
    }
}

/// A text that lies between two texts with a common beginning has that beginning.
proof fn lemma_prefix_between(p: Seq<char>, a: Seq<char>, b: Seq<char>, c: Seq<char>)
    requires
        p.is_prefix_of(a),
        p.is_prefix_of(c),
        a == b || less(a, b),
        b == c || less(b, c),
    ensures
        p.is_prefix_of(b),
    decreases p.len(),
{
    if p.len() > 0 && a != b && b != c {
        assert(a[0] == p[0] && c[0] == p[0]) by {
            assert(a.take(p.len() as int)[0] == p[0]);
            assert(c.take(p.len() as int)[0] == p[0]);
        }
        let q = p.drop_first();
        assert(q == a.drop_first().take(q.len() as int));
        assert(q == c.drop_first().take(q.len() as int));
        lemma_prefix_between(q, a.drop_first(), b.drop_first(), c.drop_first());
        assert(p == seq![p[0]] + q);
        assert(b.take(p.len() as int) == seq![b[0]] + b.drop_first().take(q.len() as int));
    }
}

/// Whether the texts are strictly ascending.
pub open spec fn ascending(s: Seq<Seq<char>>) -> bool {
    forall|i: int, j: int| 0 <= i < j < s.len() ==> less(#[trigger] s[i], #[trigger] s[j])
}

/// The texts of a finite set in ascending order.
pub open spec fn in_order(set: Set<Seq<char>>) -> Seq<Seq<char>> {
    choose|s: Seq<Seq<char>>| ascending(s) && s.to_set() == set
}

/// There is only one way to put the texts of a set in ascending order.
pub proof fn law_order_unique(a: Seq<Seq<char>>, b: Seq<Seq<char>>)
    requires
        ascending(a),
        ascending(b),
        a.to_set() == b.to_set(),
    ensures
        a == b,
    decreases a.len(),
{
    if a.len() == 0 {
        if b.len() > 0 {
            assert(b.to_set().contains(b[0]));
            assert(a.contains(b[0]));
        }
        assert(a == b);
    } else {
        let m = a.last();
        assert(a.to_set().contains(m));
        assert(b.contains(m));
        let n = b.last();
        assert(b.to_set().contains(n));
        assert(a.contains(n));
        let i = choose|i: int| 0 <= i < b.len() && b[i] == m;
        let j = choose|j: int| 0 <= j < a.len() && a[j] == n;
        if m != n {
            assert(less(b[i], b[b.len() - 1]));
            assert(less(a[j], a[a.len() - 1]));
            law_less_asymmetric(m, n);
        }
        let x = a.drop_last();
        let y = b.drop_last();
        assert(ascending(x)) by {
            assert forall|i: int, j: int| 0 <= i < j < x.len() implies less(#[trigger] x[i], #[trigger] x[j]) by {
                assert(less(a[i], a[j]));
            }
        }
        assert(ascending(y)) by {
            assert forall|i: int, j: int| 0 <= i < j < y.len() implies less(#[trigger] y[i], #[trigger] y[j]) by {
                assert(less(b[i], b[j]));
            }
        }
        lemma_drop_last_set(a);
        lemma_drop_last_set(b);
        assert(x.to_set() =~= y.to_set());
        law_order_unique(x, y);
        assert(a == x.push(m));
        assert(b == y.push(n));
    }
}

proof fn lemma_drop_last_set(a: Seq<Seq<char>>)
    requires
        ascending(a),
        a.len() > 0,
    ensures
        a.drop_last().to_set() == a.to_set().remove(a.last()),
{
    let x = a.drop_last();
    assert forall|t: Seq<char>| x.to_set().contains(t) == a.to_set().remove(a.last()).contains(t) by {
        if x.contains(t) {
            let i = choose|i: int| 0 <= i < x.len() && x[i] == t;
            assert(a[i] == t);
            assert(a.contains(t));
            assert(less(a[i], a[a.len() - 1]));
            law_less_asymmetric(t, t);
        }
        if a.contains(t) && t != a.last() {
            let i = choose|i: int| 0 <= i < a.len() && a[i] == t;
            assert(x[i] == t);
        }
    }
    assert(x.to_set() =~= a.to_set().remove(a.last()));
}

/// An ascending sequence is the ascending order of its own set.
pub proof fn lemma_in_order_is(s: Seq<Seq<char>>)
    requires
        ascending(s),
    ensures
        in_order(s.to_set()) == s,
{
    let o = in_order(s.to_set());
    assert(ascending(o) && o.to_set() == s.to_set());
    law_order_unique(o, s);
}

proof fn lemma_insert_in_order(s: Seq<Seq<char>>, x: Seq<char>) -> (t: Seq<Seq<char>>)
    requires
        ascending(s),
        !s.contains(x),
    ensures
        ascending(t),
        t.to_set() == s.to_set().insert(x),
    decreases s.len(),
{
    if s.len() == 0 || less(s.last(), x) {
        let t = s.push(x);
        assert forall|i: int, j: int| 0 <= i < j < t.len() implies less(#[trigger] t[i], #[trigger] t[j]) by {
            if j == s.len() {
                if i < s.len() - 1 {
                    assert(less(s[i], s[s.len() - 1]));
                    law_less_transitive(s[i], s.last(), x);
                }
            } else {
                assert(less(s[i], s[j]));
            }
        }
        lemma_push_set(s, x);
        t
    } else {
        let l = s.last();
        let r = s.drop_last();
        assert(s[s.len() - 1] != x);
        law_less_total(l, x);
        assert forall|i: int| 0 <= i < r.len() implies r[i] != x && less(#[trigger] r[i], l) by {
            assert(less(s[i], s[s.len() - 1]));
            assert(s[i] != x);
        }
        assert forall|i: int, j: int| 0 <= i < j < r.len() implies less(#[trigger] r[i], #[trigger] r[j]) by {
            assert(less(s[i], s[j]));
        }
        let u = lemma_insert_in_order(r, x);
        let t = u.push(l);
        assert forall|i: int| 0 <= i < u.len() implies less(#[trigger] u[i], l) by {
            assert(u.to_set().contains(u[i]));
            assert(r.to_set().insert(x).contains(u[i]));
            if u[i] != x {
                let j = choose|j: int| 0 <= j < r.len() && r[j] == u[i];
                assert(less(r[j], l));
            }
        }
        assert forall|i: int, j: int| 0 <= i < j < t.len() implies less(#[trigger] t[i], #[trigger] t[j]) by {
            if j < u.len() {
                assert(less(u[i], u[j]));
            }
        }
        lemma_push_set(u, l);
        lemma_push_set(r, l);
        assert(r.push(l) =~= s);
        assert(t.to_set() =~= s.to_set().insert(x));
        t
    }
}

proof fn lemma_push_set(s: Seq<Seq<char>>, x: Seq<char>)
    ensures
        s.push(x).to_set() == s.to_set().insert(x),
{
    let t = s.push(x);
    assert forall|y: Seq<char>| t.to_set().contains(y) == s.to_set().insert(x).contains(y) by {
        if s.contains(y) {
            let i = choose|i: int| 0 <= i < s.len() && s[i] == y;
            assert(t[i] == y);
        }
        if y == x {
            assert(t[s.len() as int] == y);
        }
        if t.contains(y) && y != x {
            let i = choose|i: int| 0 <= i < t.len() && t[i] == y;
            assert(s[i] == y);
        }
    }
    assert(t.to_set() =~= s.to_set().insert(x));
}

proof fn lemma_some_order(set: Set<Seq<char>>) -> (s: Seq<Seq<char>>)
    requires
        set.finite(),
    ensures
        ascending(s),
        s.to_set() == set,
    decreases set.len(),
{
    if set.len() == 0 {
        let s = Seq::<Seq<char>>::empty();
        assert(set =~= Set::empty());
        assert(s.to_set() =~= set);
        s
    } else {
        let x = set.choose();
        let s = lemma_some_order(set.remove(x));
        assert(!s.to_set().contains(x));
        assert(!s.contains(x));
        let t = lemma_insert_in_order(s, x);
        assert(set.remove(x).insert(x) =~= set);
        t
    }
}

/// The texts of a finite set can be put in ascending order.
pub proof fn law_in_order(set: Set<Seq<char>>)
    requires
        set.finite(),
    ensures
        ascending(in_order(set)),
        in_order(set).to_set() == set,
{
    let s = lemma_some_order(set);
    lemma_in_order_is(s);
}

/// Whether item `i` goes before item `j` when items are sorted by key and items
/// with equal keys keep their order.
pub open spec fn goes_before(keys: Seq<Seq<char>>, i: int, j: int) -> bool {
    less(keys[i], keys[j]) || (keys[i] == keys[j] && i < j)
}

/// Whether `p` lists the positions of `keys` in the order of the keys, equal keys
/// keeping their order.
pub open spec fn is_stable_order(p: Seq<int>, keys: Seq<Seq<char>>) -> bool {
    &&& p.len() == keys.len()
    &&& forall|i: int| 0 <= i < p.len() ==> 0 <= #[trigger] p[i] < keys.len()
    &&& forall|x: int| 0 <= x < keys.len() ==> #[trigger] p.contains(x)
    &&& forall|i: int, j: int|
        0 <= i < j < p.len() ==> goes_before(keys, #[trigger] p[i], #[trigger] p[j])
}

/// The positions of `keys` in the order of the keys, equal keys keeping their order.
pub open spec fn stable_order(keys: Seq<Seq<char>>) -> Seq<int> {
    choose|p: Seq<int>| is_stable_order(p, keys)
}

proof fn lemma_goes_before_transitive(keys: Seq<Seq<char>>, i: int, j: int, k: int)
    requires
        goes_before(keys, i, j),
        goes_before(keys, j, k),
    ensures
        goes_before(keys, i, k),
{
    if less(keys[i], keys[j]) && less(keys[j], keys[k]) {
        law_less_transitive(keys[i], keys[j], keys[k]);
    }
}

proof fn lemma_goes_before_asymmetric(keys: Seq<Seq<char>>, i: int, j: int)
    requires
        goes_before(keys, i, j),
    ensures
        !goes_before(keys, j, i),
        i != j,
{
    law_less_asymmetric(keys[i], keys[j]);
    law_less_asymmetric(keys[i], keys[i]);
}

/// Whether `p` lists the positions below `n` in the order of the keys.
spec fn orders_first(p: Seq<int>, keys: Seq<Seq<char>>, n: int) -> bool {
    &&& p.len() == n
    &&& forall|i: int| 0 <= i < p.len() ==> 0 <= #[trigger] p[i] < n
    &&& forall|x: int| 0 <= x < n ==> #[trigger] p.contains(x)
    &&& forall|i: int, j: int|
        0 <= i < j < p.len() ==> goes_before(keys, #[trigger] p[i], #[trigger] p[j])
}

proof fn lemma_put_in_place(p: Seq<int>, keys: Seq<Seq<char>>, x: int) -> (q: Seq<int>)
    requires
        forall|i: int, j: int|
            0 <= i < j < p.len() ==> goes_before(keys, #[trigger] p[i], #[trigger] p[j]),
        forall|i: int| 0 <= i < p.len() ==> #[trigger] p[i] < x,
    ensures
        q.len() == p.len() + 1,
        forall|i: int, j: int|
            0 <= i < j < q.len() ==> goes_before(keys, #[trigger] q[i], #[trigger] q[j]),
        forall|y: int| #[trigger] q.contains(y) == (y == x || p.contains(y)),
    decreases p.len(),
{
    if p.len() == 0 || goes_before(keys, p.last(), x) {
        let q = p.push(x);
        assert forall|i: int, j: int| 0 <= i < j < q.len() implies goes_before(keys, #[trigger] q[i], #[trigger] q[j]) by {
            if j == p.len() && i < p.len() - 1 {
                assert(goes_before(keys, p[i], p[p.len() - 1]));
                lemma_goes_before_transitive(keys, p[i], p.last(), x);
            } else if j < p.len() {
                assert(goes_before(keys, p[i], p[j]));
            }
        }
        assert forall|y: int| #[trigger] q.contains(y) == (y == x || p.contains(y)) by {
            lemma_push_contains(p, x, y);
        }
        q
    } else {
        let l = p.last();
        let r = p.drop_last();
        assert(p[p.len() - 1] == l);
        law_less_total(keys[l], keys[x]);
        assert(goes_before(keys, x, l));
        assert forall|i: int, j: int| 0 <= i < j < r.len() implies goes_before(keys, #[trigger] r[i], #[trigger] r[j]) by {
            assert(goes_before(keys, p[i], p[j]));
        }
        assert forall|i: int| 0 <= i < r.len() implies #[trigger] r[i] < x by {
            assert(p[i] < x);
        }
        let u = lemma_put_in_place(r, keys, x);
        let q = u.push(l);
        assert forall|i: int| 0 <= i < u.len() implies goes_before(keys, #[trigger] u[i], l) by {
            assert(u.contains(u[i]));
            if u[i] != x {
                assert(r.contains(u[i]));
                let j = choose|j: int| 0 <= j < r.len() && r[j] == u[i];
                assert(goes_before(keys, p[j], p[p.len() - 1]));
            }
        }
        assert forall|i: int, j: int| 0 <= i < j < q.len() implies goes_before(keys, #[trigger] q[i], #[trigger] q[j]) by {
            if j < u.len() {
                assert(goes_before(keys, u[i], u[j]));
            }
        }
        assert forall|y: int| #[trigger] q.contains(y) == (y == x || p.contains(y)) by {
            lemma_push_contains(u, l, y);
            lemma_push_contains(r, l, y);
            assert(r.push(l) =~= p);
            assert(u.contains(y) == (y == x || r.contains(y)));
        }
        q
    }
}

proof fn lemma_push_contains(p: Seq<int>, x: int, y: int)
    ensures
        p.push(x).contains(y) == (y == x || p.contains(y)),
{
    let q = p.push(x);
    if y == x {
        assert(q[p.len() as int] == y);
    }
    if p.contains(y) {
        let i = choose|i: int| 0 <= i < p.len() && p[i] == y;
        assert(q[i] == y);
    }
    if q.contains(y) && y != x {
        let i = choose|i: int| 0 <= i < q.len() && q[i] == y;
        assert(p[i] == y);
    }
}

proof fn lemma_some_stable_order(keys: Seq<Seq<char>>, n: int) -> (p: Seq<int>)
    requires
        0 <= n <= keys.len(),
    ensures
        orders_first(p, keys, n),
    decreases n,
{
    if n == 0 {
        Seq::empty()
    } else {
        let p = lemma_some_stable_order(keys, n - 1);
        let q = lemma_put_in_place(p, keys, n - 1);
        assert forall|i: int| 0 <= i < q.len() implies 0 <= #[trigger] q[i] < n by {
            assert(q.contains(q[i]));
            if q[i] != n - 1 {
                assert(p.contains(q[i]));
                let j = choose|j: int| 0 <= j < p.len() && p[j] == q[i];
                assert(0 <= p[j] < n - 1);
            }
        }
        assert forall|x: int| 0 <= x < n implies #[trigger] q.contains(x) by {
            if x < n - 1 {
                assert(p.contains(x));
            }
        }
        q
    }
}

/// Every list has a stable order.
pub proof fn law_stable_order_exists(keys: Seq<Seq<char>>)
    ensures
        is_stable_order(stable_order(keys), keys),
{
    let p = lemma_some_stable_order(keys, keys.len() as int);
    assert(is_stable_order(p, keys));
}

/// Keys determine the stable order.
pub proof fn law_stable_order_unique(p: Seq<int>, q: Seq<int>, keys: Seq<Seq<char>>)
    requires
        is_stable_order(p, keys),
        is_stable_order(q, keys),
    ensures
        p == q,
{
    assert forall|n: int| 0 <= n <= p.len() implies p.take(n) == q.take(n) by {
        lemma_same_beginning(p, q, keys, n);
    }
    assert(p.take(p.len() as int) == p);
    assert(q.take(p.len() as int) == q);
}

proof fn lemma_same_beginning(p: Seq<int>, q: Seq<int>, keys: Seq<Seq<char>>, n: int)
    requires
        is_stable_order(p, keys),
        is_stable_order(q, keys),
        0 <= n <= p.len(),
    ensures
        p.take(n) == q.take(n),
    decreases n,
{
    if n > 0 {
        lemma_same_beginning(p, q, keys, n - 1);
        let a = p[n - 1];
        let b = q[n - 1];
        if a != b {
            assert(q.contains(a));
            assert(p.contains(b));
            let i = choose|i: int| 0 <= i < q.len() && q[i] == a;
            let j = choose|j: int| 0 <= j < p.len() && p[j] == b;
            if i < n - 1 {
                assert(q.take(n - 1)[i] == p.take(n - 1)[i]);
                lemma_goes_before_asymmetric(keys, p[i], p[n - 1]);
            }
            if j < n - 1 {
                assert(q.take(n - 1)[j] == p.take(n - 1)[j]);
                lemma_goes_before_asymmetric(keys, q[j], q[n - 1]);
            }
            assert(goes_before(keys, q[n - 1], q[i]));
            assert(goes_before(keys, p[n - 1], p[j]));
            lemma_goes_before_asymmetric(keys, a, b);
        }
        assert(p.take(n) == p.take(n - 1).push(a));
        assert(q.take(n) == q.take(n - 1).push(b));
    }
}

/// Items whose keys share a beginning stand next to each other in the stable order.
pub proof fn law_shared_beginning_contiguous(
    keys: Seq<Seq<char>>,
    p: Seq<int>,
    beginning: Seq<char>,
    i: int,
    j: int,
    k: int,
)
    requires
        is_stable_order(p, keys),
        0 <= i <= j <= k < p.len(),
        beginning.is_prefix_of(keys[p[i]]),
        beginning.is_prefix_of(keys[p[k]]),
    ensures
        beginning.is_prefix_of(keys[p[j]]),
{
    if i < j && j < k {
        assert(goes_before(keys, p[i], p[j]));
        assert(goes_before(keys, p[j], p[k]));
        lemma_prefix_between(beginning, keys[p[i]], keys[p[j]], keys[p[k]]);
    }
}

/// Whether `a` comes before `b`.
fn chars_less(a: &Vec<char>, b: &Vec<char>) -> (r: bool)
    ensures
        r == less(a@, b@),
{
    let mut i: usize = 0;
    assert(a@.skip(0) == a@);
    assert(b@.skip(0) == b@);
    while i < a.len() && i < b.len() && a[i] == b[i]
        invariant
            i <= a@.len(),
            i <= b@.len(),
            less(a@, b@) == less(a@.skip(i as int), b@.skip(i as int)),
        decreases a@.len() - i,
    {
        assert(a@.skip(i as int).drop_first() == a@.skip(i + 1));
        assert(b@.skip(i as int).drop_first() == b@.skip(i + 1));
        i = i + 1;
    }
    if i == b.len() {
        false
    } else if i == a.len() {
        true
    } else {
        a[i] < b[i]
    }
}

/// The keys of a list of character lists.
spec fn key_views(keys: Seq<Vec<char>>) -> Seq<Seq<char>> {
    keys.map_values(|k: Vec<char>| k@)
}

/// The positions as mathematical integers.
pub open spec fn positions(p: Seq<usize>) -> Seq<int> {
    p.map_values(|i: usize| i as int)
}

/// Whether `p` lists the positions from `lo` up to `hi` in order.
spec fn orders_range(p: Seq<usize>, keys: Seq<Seq<char>>, lo: int, hi: int) -> bool {
    &&& p.len() == hi - lo
    &&& forall|i: int| 0 <= i < p.len() ==> lo <= #[trigger] p[i] < hi
    &&& forall|x: usize| lo <= x < hi ==> #[trigger] p.contains(x)
    &&& ordered(p, keys)
}

spec fn ordered(p: Seq<usize>, keys: Seq<Seq<char>>) -> bool {
    forall|i: int, j: int|
        0 <= i < j < p.len() ==> goes_before(keys, #[trigger] p[i] as int, #[trigger] p[j] as int)
}

/// Two ordered lists of positions as one ordered list.
fn merge(
    keys: &Vec<Vec<char>>,
    a: &Vec<usize>,
    b: &Vec<usize>,
    Ghost(lo): Ghost<int>,
    Ghost(mid): Ghost<int>,
    Ghost(hi): Ghost<int>,
) -> (r: Vec<usize>)
    requires
        0 <= lo <= mid <= hi <= keys@.len(),
        orders_range(a@, key_views(keys@), lo, mid),
        orders_range(b@, key_views(keys@), mid, hi),
    ensures
        orders_range(r@, key_views(keys@), lo, hi),
{
    let ghost kv = key_views(keys@);
    let mut r: Vec<usize> = Vec::new();
    let mut i: usize = 0;
    let mut j: usize = 0;
    while i < a.len() || j < b.len()
        invariant
            0 <= lo <= mid <= hi <= keys@.len(),
            kv == key_views(keys@),
            orders_range(a@, kv, lo, mid),
            orders_range(b@, kv, mid, hi),
            i <= a@.len(),
            j <= b@.len(),
            r@.len() == i + j,
            ordered(r@, kv),
            forall|k: int| 0 <= k < r@.len() ==> lo <= #[trigger] r@[k] < hi,
            forall|k: int| 0 <= k < i ==> r@.contains(#[trigger] a@[k]),
            forall|k: int| 0 <= k < j ==> r@.contains(#[trigger] b@[k]),
            forall|k: int, m: int|
                0 <= k < r@.len() && i <= m < a@.len() ==> goes_before(
                    kv,
                    #[trigger] r@[k] as int,
                    #[trigger] a@[m] as int,
                ),
            forall|k: int, m: int|
                0 <= k < r@.len() && j <= m < b@.len() ==> goes_before(
                    kv,
                    #[trigger] r@[k] as int,
                    #[trigger] b@[m] as int,
                ),
        decreases a@.len() - i + b@.len() - j,
    {
        let take_a: bool = if j == b.len() {
            true
        } else if i == a.len() {
            false
        } else {
            assert(kv[a@[i as int] as int] == keys@[a@[i as int] as int]@);
            assert(kv[b@[j as int] as int] == keys@[b@[j as int] as int]@);
            !chars_less(&keys[b[j]], &keys[a[i]])
        };
        let ghost old_r = r@;
        if take_a {
            let x = a[i];
            proof {
                if j < b@.len() {
                    law_less_total(kv[x as int], kv[b@[j as int] as int]);
                    assert(goes_before(kv, x as int, b@[j as int] as int));
                    assert forall|m: int| j <= m < b@.len() implies goes_before(kv, x as int, #[trigger] b@[m] as int) by {
                        if m > j {
                            lemma_goes_before_transitive(kv, x as int, b@[j as int] as int, b@[m] as int);
                        }
                    }
                }
            }
            r.push(x);
            i = i + 1;
            assert(r@[old_r.len() as int] == x);
        } else {
            let x = b[j];
            proof {
                if i < a@.len() {
                    assert(goes_before(kv, x as int, a@[i as int] as int));
                    assert forall|m: int| i <= m < a@.len() implies goes_before(kv, x as int, #[trigger] a@[m] as int) by {
                        if m > i {
                            lemma_goes_before_transitive(kv, x as int, a@[i as int] as int, a@[m] as int);
                        }
                    }
                }
            }
            r.push(x);
            j = j + 1;
            assert(r@[old_r.len() as int] == x);
        }
        proof {
            assert forall|y: usize| old_r.contains(y) implies r@.contains(y) by {
                let k = choose|k: int| 0 <= k < old_r.len() && old_r[k] == y;
                assert(r@[k] == y);
            }
        }
    }
    proof {
        assert forall|x: usize| lo <= x < hi implies #[trigger] r@.contains(x) by {
            if x < mid {
                assert(a@.contains(x));
                let k = choose|k: int| 0 <= k < a@.len() && a@[k] == x;
                assert(r@.contains(a@[k]));
            } else {
                assert(b@.contains(x));
                let k = choose|k: int| 0 <= k < b@.len() && b@[k] == x;
                assert(r@.contains(b@[k]));
            }
        }
    }
    r
}

/// The positions from `lo` up to `hi` in the order of their keys.
fn sort_range(keys: &Vec<Vec<char>>, lo: usize, hi: usize) -> (r: Vec<usize>)
    requires
        lo <= hi <= keys@.len(),
    ensures
        orders_range(r@, key_views(keys@), lo as int, hi as int),
    decreases hi - lo,
{
    if hi - lo == 0 {
        Vec::new()
    } else if hi - lo == 1 {
        let mut r: Vec<usize> = Vec::new();
        r.push(lo);
        assert(r@[0] == lo);
        r
    } else {
        let mid: usize = lo + (hi - lo) / 2;
        let a = sort_range(keys, lo, mid);
        let b = sort_range(keys, mid, hi);
        merge(keys, &a, &b, Ghost(lo as int), Ghost(mid as int), Ghost(hi as int))
    }
}

/// The positions of a list of keys in the order of the keys; equal keys keep their
/// order.
pub fn sort_by_key(keys: &Vec<String>) -> (r: Vec<usize>)
    ensures
        positions(r@) == stable_order(views(keys@)),
        is_stable_order(positions(r@), views(keys@)),
{
    let mut cs: Vec<Vec<char>> = Vec::new();
    for i in 0..keys.len()
        invariant
            cs@.len() == i,
            forall|k: int| 0 <= k < i ==> cs@[k]@ == keys@[k]@,
    {
        cs.push(chars_of(keys[i].as_str()));
    }
    let r = sort_range(&cs, 0, cs.len());
    proof {
        assert(key_views(cs@) == views(keys@));
        let p = positions(r@);
        assert forall|x: int| 0 <= x < keys@.len() implies #[trigger] p.contains(x) by {
            assert(r@.contains(x as usize));
            let k = choose|k: int| 0 <= k < r@.len() && r@[k] == x as usize;
            assert(p[k] == x);
        }
        assert(is_stable_order(p, views(keys@)));
        law_stable_order_unique(p, stable_order(views(keys@)), views(keys@));
    }
    r
}

/// The texts of a list in ascending order, each once.
pub fn sort_unique(list: &Vec<String>) -> (r: Vec<String>)
    ensures
        views(r@) == in_order(views(list@).to_set()),
        ascending(views(r@)),
        views(r@).to_set() == views(list@).to_set(),
{
    let p = sort_by_key(list);
    let ghost keys = views(list@);
    let ghost pos = positions(p@);
    let mut r: Vec<String> = Vec::new();
    for i in 0..p.len()
        invariant
            keys == views(list@),
            pos == positions(p@),
            is_stable_order(pos, keys),
            ascending(views(r@)),
            r@.len() <= i,
            i > 0 ==> r@.len() > 0 && r@.last()@ == keys[pos[i - 1]],
            forall|k: int| 0 <= k < i ==> views(r@).contains(#[trigger] keys[pos[k]]),
            forall|k: int| 0 <= k < r@.len() ==> keys.contains(#[trigger] views(r@)[k]),
    {
        assert(pos[i as int] == p@[i as int]);
        let x = list[p[i]].clone();
        let ghost old_r = views(r@);
        let fresh: bool = if r.len() == 0 {
            true
        } else {
            r[r.len() - 1] != x
        };
        assert(x@ == keys[pos[i as int]]);
        if fresh {
            proof {
                if i > 0 {
                    assert(goes_before(keys, pos[i - 1], pos[i as int]));
                    assert(less(keys[pos[i - 1]], x@));
                    assert forall|k: int| 0 <= k < old_r.len() implies less(#[trigger] old_r[k], x@) by {
                        if k < old_r.len() - 1 {
                            assert(less(old_r[k], old_r[old_r.len() - 1]));
                            law_less_transitive(old_r[k], old_r[old_r.len() - 1], x@);
                        }
                    }
                }
            }
            r.push(x);
            assert(views(r@) == old_r.push(x@));
            assert(views(r@)[old_r.len() as int] == x@);
            assert forall|t: Seq<char>| old_r.contains(t) implies views(r@).contains(t) by {
                let k = choose|k: int| 0 <= k < old_r.len() && old_r[k] == t;
                assert(views(r@)[k] == t);
            }
        } else {
            assert(views(r@)[r@.len() - 1] == x@);
        }
        assert(keys.contains(x@));
    }
    proof {
        let s = views(r@);
        assert forall|t: Seq<char>| s.to_set().contains(t) == keys.to_set().contains(t) by {
            if keys.contains(t) {
                let x = choose|x: int| 0 <= x < keys.len() && keys[x] == t;
                assert(pos.contains(x));
                let k = choose|k: int| 0 <= k < pos.len() && pos[k] == x;
                assert(s.contains(keys[pos[k]]));
            }
            if s.contains(t) {
                let k = choose|k: int| 0 <= k < s.len() && s[k] == t;
                assert(keys.contains(s[k]));
            }
        }
        assert(s.to_set() =~= keys.to_set());
        lemma_in_order_is(s);
    }
    r
}

/// The first character in which two texts differ decides which comes first, by its code
/// point; a beginning comes before what it begins.
pub proof fn law_first_difference_decides(p: Seq<char>, a: char, x: Seq<char>, b: char, y: Seq<char>)
    requires
        a != b,
    ensures
        less(p + seq![a] + x, p + seq![b] + y) == ((a as int) < b as int),
        less(p, p + seq![a] + x),
        !less(p + seq![a] + x, p),
{
    let none = Seq::<char>::empty();
    lemma_less_after_prefix(p, seq![a] + x, seq![b] + y);
    lemma_less_after_prefix(p, none, seq![a] + x);
    lemma_less_after_prefix(p, seq![a] + x, none);
    assert(p + (seq![a] + x) =~= p + seq![a] + x);
    assert(p + (seq![b] + y) =~= p + seq![b] + y);
    assert(p + none =~= p);
}

} // verus!
