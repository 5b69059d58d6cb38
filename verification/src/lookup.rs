//! Rows found by a key, and items grouped by a key.
use crate::text::{same, views};
use vstd::hash_map::StringHashMap;
use vstd::hash_set::StringHashSet;
use vstd::prelude::*;

verus! {

/// The position of the first occurrence of `k`, or the length if there is none.
pub open spec fn first_index<K>(keys: Seq<K>, k: K) -> int
    decreases keys.len(),
{
    if keys.len() == 0 {
        0
    } else {
        let p = first_index(keys.drop_last(), k);
        if p < keys.len() - 1 {
            p
        } else if keys.last() == k {
            keys.len() - 1
        } else {
            keys.len() as int
        }
    }
}

/// The position of the last occurrence of `k`, or -1 if there is none.
pub open spec fn last_index<K>(keys: Seq<K>, k: K) -> int
    decreases keys.len(),
{
    if keys.len() == 0 {
        -1
    } else if keys.last() == k {
        keys.len() - 1
    } else {
        last_index(keys.drop_last(), k)
    }
}

pub proof fn lemma_first_index<K>(keys: Seq<K>, k: K)
    ensures
        0 <= first_index(keys, k) <= keys.len(),
        first_index(keys, k) < keys.len() ==> keys[first_index(keys, k)] == k,
        forall|i: int| 0 <= i < first_index(keys, k) ==> keys[i] != k,
        first_index(keys, k) < keys.len() <==> keys.contains(k),
    decreases keys.len(),
{
    if keys.len() > 0 {
        let t = keys.drop_last();
        lemma_first_index(t, k);
        assert forall|i: int| 0 <= i < first_index(keys, k) implies keys[i] != k by {
            if i < keys.len() - 1 {
                assert(t[i] == keys[i]);
            }
        }
        if keys.contains(k) {
            let i = choose|i: int| 0 <= i < keys.len() && keys[i] == k;
            if i < keys.len() - 1 {
                assert(t[i] == k);
            }
        }
    }
}

pub proof fn lemma_last_index<K>(keys: Seq<K>, k: K)
    ensures
        -1 <= last_index(keys, k) < keys.len(),
        last_index(keys, k) >= 0 ==> keys[last_index(keys, k)] == k,
        forall|i: int| last_index(keys, k) < i < keys.len() ==> keys[i] != k,
        last_index(keys, k) >= 0 <==> keys.contains(k),
    decreases keys.len(),
{
    if keys.len() > 0 && keys.last() != k {
        let t = keys.drop_last();
        lemma_last_index(t, k);
        assert forall|i: int| last_index(keys, k) < i < keys.len() implies keys[i] != k by {
            if i < keys.len() - 1 {
                assert(t[i] == keys[i]);
            }
        }
        if keys.contains(k) {
            let i = choose|i: int| 0 <= i < keys.len() && keys[i] == k;
            assert(t[i] == k);
        }
    } else if keys.len() > 0 {
        assert(keys[keys.len() - 1] == k);
    }
}

/// Whether `m` holds the position of the first occurrence of each key.
pub open spec fn locates_first(m: Map<Seq<char>, usize>, keys: Seq<Seq<char>>) -> bool {
    &&& forall|k: Seq<char>| #[trigger] m.dom().contains(k) == keys.contains(k)
    &&& forall|k: Seq<char>| m.dom().contains(k) ==> #[trigger] m[k] == first_index(keys, k)
}

/// Whether `m` holds the position of the last occurrence of each key.
pub open spec fn locates_last(m: Map<Seq<char>, usize>, keys: Seq<Seq<char>>) -> bool {
    &&& forall|k: Seq<char>| #[trigger] m.dom().contains(k) == keys.contains(k)
    &&& forall|k: Seq<char>| m.dom().contains(k) ==> #[trigger] m[k] == last_index(keys, k)
}

/// Each key of a list with the position of its first occurrence.
pub fn index_first(keys: &Vec<String>) -> (m: StringHashMap<usize>)
    ensures
        locates_first(m@, views(keys@)),
{
    let mut m: StringHashMap<usize> = StringHashMap::new();
    let ghost all = views(keys@);
    for i in 0..keys.len()
        invariant
            all == views(keys@),
            forall|k: Seq<char>| #[trigger] m@.dom().contains(k) == all.take(i as int).contains(k),
            forall|k: Seq<char>|
                m@.dom().contains(k) ==> #[trigger] m@[k] == first_index(all.take(i as int), k),
    {
        let ghost before = all.take(i as int);
        let ghost after = all.take(i + 1);
        let ghost old_m = m@;
        let key = &keys[i];
        assert(after == before.push(key@));
        assert(after.drop_last() == before);
        if !m.contains_key(key.as_str()) {
            m.insert(key.clone(), i);
        }
        proof {
            assert(after[i as int] == key@);
            assert forall|k: Seq<char>| #[trigger] m@.dom().contains(k) == after.contains(k) by {
                if before.contains(k) {
                    let j = choose|j: int| 0 <= j < before.len() && before[j] == k;
                    assert(after[j] == k);
                }
                assert(old_m.dom().contains(k) == before.contains(k));
            }
            assert forall|k: Seq<char>| m@.dom().contains(k) implies #[trigger] m@[k] == first_index(after, k) by {
                lemma_first_index(before, k);
                assert(old_m.dom().contains(k) == before.contains(k));
            }
        }
    }
    assert(all.take(all.len() as int) == all);
    m
}

/// Each key of a list with the position of its last occurrence.
pub fn index_last(keys: &Vec<String>) -> (m: StringHashMap<usize>)
    ensures
        locates_last(m@, views(keys@)),
{
    let mut m: StringHashMap<usize> = StringHashMap::new();
    let ghost all = views(keys@);
    for i in 0..keys.len()
        invariant
            all == views(keys@),
            forall|k: Seq<char>| #[trigger] m@.dom().contains(k) == all.take(i as int).contains(k),
            forall|k: Seq<char>|
                m@.dom().contains(k) ==> #[trigger] m@[k] == last_index(all.take(i as int), k),
    {
        let ghost before = all.take(i as int);
        let ghost after = all.take(i + 1);
        let ghost old_m = m@;
        let key = &keys[i];
        assert(after == before.push(key@));
        assert(after.drop_last() == before);
        m.insert(key.clone(), i);
        proof {
            assert(after[i as int] == key@);
            assert forall|k: Seq<char>| #[trigger] m@.dom().contains(k) == after.contains(k) by {
                if before.contains(k) {
                    let j = choose|j: int| 0 <= j < before.len() && before[j] == k;
                    assert(after[j] == k);
                }
                assert(old_m.dom().contains(k) == before.contains(k));
            }
            assert forall|k: Seq<char>| m@.dom().contains(k) implies #[trigger] m@[k] == last_index(after, k) by {
                assert(old_m.dom().contains(k) == before.contains(k));
            }
        }
    }
    assert(all.take(all.len() as int) == all);
    m
}

/// The keys in the order of their first occurrences, each once.
pub open spec fn distinct<K>(keys: Seq<K>) -> Seq<K>
    decreases keys.len(),
{
    if keys.len() == 0 {
        Seq::empty()
    } else {
        let d = distinct(keys.drop_last());
        if d.contains(keys.last()) {
            d
        } else {
            d.push(keys.last())
        }
    }
}

/// The items whose key is `k`, in order.
pub open spec fn having<K, V>(keys: Seq<K>, items: Seq<V>, k: K) -> Seq<V>
    decreases keys.len(),
{
    if keys.len() == 0 {
        Seq::empty()
    } else {
        let h = having(keys.drop_last(), items.drop_last(), k);
        if keys.last() == k {
            h.push(items.last())
        } else {
            h
        }
    }
}

/// The items grouped by key, the groups in the order of their first items.
pub open spec fn grouped<K, V>(keys: Seq<K>, items: Seq<V>) -> Seq<(K, Seq<V>)> {
    distinct(keys).map_values(|k: K| (k, having(keys, items, k)))
}

proof fn lemma_distinct<K>(keys: Seq<K>)
    ensures
        distinct(keys).no_duplicates(),
        forall|k: K| #[trigger] distinct(keys).contains(k) == keys.contains(k),
    decreases keys.len(),
{
    if keys.len() > 0 {
        let t = keys.drop_last();
        lemma_distinct(t);
        let d = distinct(t);
        assert(keys == t.push(keys.last()));
        assert forall|k: K| #[trigger] distinct(keys).contains(k) == keys.contains(k) by {
            assert(d.contains(k) == t.contains(k));
            if t.contains(k) {
                let i = choose|i: int| 0 <= i < t.len() && t[i] == k;
                assert(keys[i] == k);
            }
            if d.contains(k) {
                let i = choose|i: int| 0 <= i < d.len() && d[i] == k;
                assert(distinct(keys)[i] == k);
            }
            if k == keys.last() {
                assert(keys[keys.len() - 1] == k);
                if !d.contains(k) {
                    assert(distinct(keys)[d.len() as int] == k);
                }
            }
            if distinct(keys).contains(k) {
                let i = choose|i: int| 0 <= i < distinct(keys).len() && distinct(keys)[i] == k;
                assert(i < d.len() ==> d[i] == k);
            }
        }
    }
}

/// No two groups have the same key.
pub proof fn law_groups_distinct<K, V>(keys: Seq<K>, items: Seq<V>, i: int, j: int)
    requires
        keys.len() == items.len(),
        0 <= i < j < grouped(keys, items).len(),
    ensures
        grouped(keys, items)[i].0 != grouped(keys, items)[j].0,
{
    lemma_distinct(keys);
}

/// Each item is in the group of its key.
pub proof fn law_grouped_keeps_items<K, V>(keys: Seq<K>, items: Seq<V>, i: int)
    requires
        keys.len() == items.len(),
        0 <= i < items.len(),
    ensures
        exists|g: int|
            0 <= g < grouped(keys, items).len() && (#[trigger] grouped(keys, items)[g]).0 == keys[i]
                && grouped(keys, items)[g].1.contains(items[i]),
{
    lemma_distinct(keys);
    assert(distinct(keys).contains(keys[i]));
    let g = choose|g: int| 0 <= g < distinct(keys).len() && distinct(keys)[g] == keys[i];
    lemma_having(keys, items, i);
    assert(grouped(keys, items)[g].0 == keys[i]);
}

proof fn lemma_having<K, V>(keys: Seq<K>, items: Seq<V>, i: int)
    requires
        keys.len() == items.len(),
        0 <= i < items.len(),
    ensures
        having(keys, items, keys[i]).contains(items[i]),
    decreases keys.len(),
{
    let k = keys[i];
    let h = having(keys.drop_last(), items.drop_last(), k);
    if i < keys.len() - 1 {
        lemma_having(keys.drop_last(), items.drop_last(), i);
        let j = choose|j: int| 0 <= j < h.len() && h[j] == items[i];
        assert(having(keys, items, k)[j] == items[i]);
    } else {
        assert(having(keys, items, k)[h.len() as int] == items[i]);
    }
}

/// Nothing gets lost and nothing is added: the groups hold as many items as there are.
pub proof fn law_grouped_count<K, V>(keys: Seq<K>, items: Seq<V>)
    requires
        keys.len() == items.len(),
    ensures
        total_len(grouped(keys, items)) == items.len(),
    decreases keys.len(),
{
    let g = grouped(keys, items);
    if keys.len() > 0 {
        let t = keys.drop_last();
        let u = items.drop_last();
        law_grouped_count(t, u);
        lemma_grouped_push(t, u, keys.last(), items.last());
        assert(keys == t.push(keys.last()));
        assert(items == u.push(items.last()));
        let p = first_index(distinct(t), keys.last());
        lemma_first_index(distinct(t), keys.last());
        if distinct(t).contains(keys.last()) {
            lemma_total_update(grouped(t, u), p, items.last());
        } else {
            let one = (keys.last(), seq![items.last()]);
            assert(grouped(t, u).push(one).drop_last() == grouped(t, u));
        }
    } else {
        assert(g =~= Seq::empty());
    }
}

/// How many items the groups hold in all.
pub open spec fn total_len<K, V>(groups: Seq<(K, Seq<V>)>) -> nat
    decreases groups.len(),
{
    if groups.len() == 0 {
        0
    } else {
        total_len(groups.drop_last()) + groups.last().1.len()
    }
}

proof fn lemma_total_update<K, V>(groups: Seq<(K, Seq<V>)>, p: int, v: V)
    requires
        0 <= p < groups.len(),
    ensures
        total_len(groups.update(p, (groups[p].0, groups[p].1.push(v)))) == total_len(groups) + 1,
    decreases groups.len(),
{
    let n = groups.update(p, (groups[p].0, groups[p].1.push(v)));
    if p == groups.len() - 1 {
        assert(n.drop_last() == groups.drop_last());
    } else {
        assert(n.drop_last() == groups.drop_last().update(p, (groups[p].0, groups[p].1.push(v))));
        lemma_total_update(groups.drop_last(), p, v);
    }
}

/// One more item joins the group of its key, or makes a new group at the end.
pub proof fn lemma_grouped_push<K, V>(keys: Seq<K>, items: Seq<V>, k: K, v: V)
    requires
        keys.len() == items.len(),
    ensures
        ({
            let p = first_index(distinct(keys), k);
            let g = grouped(keys, items);
            grouped(keys.push(k), items.push(v)) == if distinct(keys).contains(k) {
                g.update(p, (g[p].0, g[p].1.push(v)))
            } else {
                g.push((k, seq![v]))
            }
        }),
{
    let d = distinct(keys);
    let ks = keys.push(k);
    let vs = items.push(v);
    assert(ks.drop_last() == keys);
    assert(vs.drop_last() == items);
    lemma_first_index(d, k);
    lemma_distinct(keys);
    let p = first_index(d, k);
    let g = grouped(keys, items);
    let n = grouped(ks, vs);
    if d.contains(k) {
        let e = g.update(p, (g[p].0, g[p].1.push(v)));
        assert forall|i: int| 0 <= i < n.len() implies n[i] == e[i] by {
            if i != p {
                assert(d[i] != d[p]);
            }
        }
        assert(n =~= e);
    } else {
        lemma_having_none(keys, items, k);
        let e = g.push((k, seq![v]));
        assert(distinct(ks) == d.push(k));
        assert forall|i: int| 0 <= i < n.len() implies n[i] == e[i] by {
            if i < d.len() {
                assert(d.contains(d[i]));
            } else {
                assert(having(ks, vs, k) == Seq::<V>::empty().push(v));
                assert(Seq::<V>::empty().push(v) =~= seq![v]);
            }
        }
        assert(n =~= e);
    }
}

proof fn lemma_having_none<K, V>(keys: Seq<K>, items: Seq<V>, k: K)
    requires
        keys.len() == items.len(),
        !keys.contains(k),
    ensures
        having(keys, items, k) == Seq::<V>::empty(),
    decreases keys.len(),
{
    if keys.len() > 0 {
        let t = keys.drop_last();
        assert(keys[keys.len() - 1] != k);
        assert forall|i: int| 0 <= i < t.len() implies t[i] != k by {
            assert(keys[i] != k);
        }
        assert(!t.contains(k));
        lemma_having_none(t, items.drop_last(), k);
    }
}

/// The position of a text in a list, or the length if it is not there.
pub fn position_of(list: &Vec<String>, s: &str) -> (p: usize)
    ensures
        p == first_index(views(list@), s@),
        p <= list@.len(),
{
    let ghost all = views(list@);
    for i in 0..list.len()
        invariant
            all == views(list@),
            forall|j: int| 0 <= j < i ==> all[j] != s@,
    {
        if same(list[i].as_str(), s) {
            proof {
                lemma_first_index(all, s@);
                assert(all[i as int] == s@);
                if first_index(all, s@) < i {
                    assert(all[first_index(all, s@)] == s@);
                }
            }
            return i;
        }
    }
    proof {
        lemma_first_index(all, s@);
    }
    list.len()
}

/// The texts of a list as a set.
pub fn set_of(list: &Vec<String>) -> (s: StringHashSet)
    ensures
        forall|k: Seq<char>| #[trigger] s@.contains(k) == views(list@).contains(k),
{
    let mut s = StringHashSet::new();
    let ghost all = views(list@);
    for i in 0..list.len()
        invariant
            all == views(list@),
            forall|k: Seq<char>| #[trigger] s@.contains(k) == all.take(i as int).contains(k),
    {
        let ghost before = all.take(i as int);
        let ghost after = all.take(i + 1);
        let ghost old_s = s@;
        s.insert(list[i].clone());
        proof {
            assert(after == before.push(all[i as int]));
            assert(after[i as int] == all[i as int]);
            assert forall|k: Seq<char>| #[trigger] s@.contains(k) == after.contains(k) by {
                assert(old_s.contains(k) == before.contains(k));
                if before.contains(k) {
                    let j = choose|j: int| 0 <= j < before.len() && before[j] == k;
                    assert(after[j] == k);
                }
            }
        }
    }
    assert(all.take(all.len() as int) == all);
    s
}

proof fn lemma_having_from<K, V>(keys: Seq<K>, items: Seq<V>, k: K, v: V)
    requires
        keys.len() == items.len(),
    ensures
        having(keys, items, k).contains(v) == exists|i: int|
            0 <= i < keys.len() && (#[trigger] keys[i]) == k && items[i] == v,
    decreases keys.len(),
{
    if keys.len() > 0 {
        let a = keys.drop_last();
        let b = items.drop_last();
        let h = having(a, b, k);
        let all = having(keys, items, k);
        lemma_having_from(a, b, k, v);
        if h.contains(v) {
            let i = choose|i: int| 0 <= i < a.len() && (#[trigger] a[i]) == k && b[i] == v;
            assert(keys[i] == k && items[i] == v);
            let j = choose|j: int| 0 <= j < h.len() && h[j] == v;
            assert(all[j] == v);
        }
        if keys.last() == k && items.last() == v {
            assert(all[h.len() as int] == v);
        }
        if all.contains(v) {
            let j = choose|j: int| 0 <= j < all.len() && all[j] == v;
            if j < h.len() {
                assert(h[j] == v);
            } else {
                assert(keys[keys.len() - 1] == k && items[keys.len() - 1] == v);
            }
        }
        if exists|i: int| 0 <= i < keys.len() && (#[trigger] keys[i]) == k && items[i] == v {
            let i = choose|i: int| 0 <= i < keys.len() && (#[trigger] keys[i]) == k && items[i] == v;
            if i < a.len() {
                assert(a[i] == k && b[i] == v);
            }
        }
    }
}

/// A group holds items with its key only, and all of them.
pub proof fn law_groups_hold_their_items<K, V>(keys: Seq<K>, items: Seq<V>, g: int, v: V)
    requires
        keys.len() == items.len(),
        0 <= g < grouped(keys, items).len(),
    ensures
        grouped(keys, items)[g].1.contains(v) == exists|i: int|
            0 <= i < keys.len() && (#[trigger] keys[i]) == grouped(keys, items)[g].0 && items[i] == v,
{
    lemma_having_from(keys, items, distinct(keys)[g], v);
}

/// No group is empty.
pub proof fn law_groups_not_empty<K, V>(keys: Seq<K>, items: Seq<V>, g: int)
    requires
        keys.len() == items.len(),
        0 <= g < grouped(keys, items).len(),
    ensures
        grouped(keys, items)[g].1.len() > 0,
{
    lemma_distinct(keys);
    let k = distinct(keys)[g];
    assert(distinct(keys).contains(k));
    let i = choose|i: int| 0 <= i < keys.len() && keys[i] == k;
    lemma_having(keys, items, i);
}

/// Groups stand in the order in which their keys come first, and a group holds its items
/// in the order in which they come: more items behind the others change no order.
pub proof fn law_groups_keep_the_order<K, V>(a: Seq<K>, x: Seq<V>, b: Seq<K>, y: Seq<V>, g: int, k: K, v: V)
    requires
        a.len() == x.len(),
        b.len() == y.len(),
    ensures
        0 <= g < grouped(a, x).len() ==> g < grouped(a + b, x + y).len() && grouped(a + b, x + y)[g].0 == grouped(
            a,
            x,
        )[g].0 && grouped(a, x)[g].1.is_prefix_of(grouped(a + b, x + y)[g].1),
        grouped(seq![k], seq![v]) == seq![(k, seq![v])],
    decreases b.len(),
{
    let one = grouped(seq![k], seq![v]);
    let no_keys = seq![k].drop_last();
    let no_items = seq![v].drop_last();
    assert(no_keys.len() == 0 && no_items.len() == 0);
    assert(distinct(no_keys) =~= Seq::empty());
    assert(having(no_keys, no_items, k) =~= Seq::empty());
    assert(having(seq![k], seq![v], k) =~= seq![v]);
    assert(distinct(seq![k]) =~= seq![k]);
    assert(one =~= seq![(k, seq![v])]);
    if b.len() > 0 {
        let bt = b.drop_last();
        let yt = y.drop_last();
        law_groups_keep_the_order(a, x, bt, yt, g, k, v);
        assert((a + b).drop_last() =~= a + bt);
        assert((x + y).drop_last() =~= x + yt);
        if 0 <= g < grouped(a, x).len() {
            let key = grouped(a, x)[g].0;
            let before = having(a + bt, x + yt, key);
            let after = having(a + b, x + y, key);
            let first = grouped(a, x)[g].1;
            assert(grouped(a + bt, x + yt)[g].1 == before);
            assert(grouped(a + b, x + y)[g].0 == key);
            assert(grouped(a + b, x + y)[g].1 == after);
            assert(after.take(first.len() as int) =~= before.take(first.len() as int));
        }
    } else {
        assert(a + b =~= a);
        assert(x + y =~= x);
    }
}

} // verus!
