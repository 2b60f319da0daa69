//! Partitioning a sequence of keyed items into classes of equal key.
//!
//! A class lists positions in the key sequence, in ascending order. Classes
//! stand in the order in which their keys were first seen.

use crate::order::lemma_ordered_sequences_agree;
use std::collections::HashMap;
use vstd::prelude::*;

verus! {

broadcast use vstd::std_specs::hash::group_hash_axioms;

/// The first class at or after `from` whose members carry `key`, or the
/// number of classes if there is none.
pub open spec fn find_class<K>(classes: Seq<Seq<int>>, keys: Seq<K>, key: K, from: int) -> int
    decreases classes.len() - from,
{
    if from < 0 || from >= classes.len() {
        classes.len() as int
    } else if keys[classes[from][0]] == key {
        from
    } else {
        find_class(classes, keys, key, from + 1)
    }
}

/// The classes after position `p` has joined the class of its key, or
/// opened a new last class if no class has that key yet.
pub open spec fn place<K>(classes: Seq<Seq<int>>, keys: Seq<K>, p: int) -> Seq<Seq<int>> {
    let c = find_class(classes, keys, keys[p], 0);
    if c < classes.len() {
        classes.update(c, classes[c].push(p))
    } else {
        classes.push(seq![p])
    }
}

/// The classes of the first `n` positions of `keys`.
pub open spec fn group_prefix<K>(keys: Seq<K>, n: nat) -> Seq<Seq<int>>
    decreases n,
{
    if n == 0 {
        Seq::empty()
    } else {
        place(group_prefix(keys, (n - 1) as nat), keys, n - 1)
    }
}

/// The partition of the positions of `keys` into classes of equal key.
pub open spec fn group_positions<K>(keys: Seq<K>) -> Seq<Seq<int>> {
    group_prefix(keys, keys.len())
}

/// Some class holds position `p`.
pub open spec fn covered(classes: Seq<Seq<int>>, p: int) -> bool {
    exists|c: int| 0 <= c < classes.len() && (#[trigger] classes[c]).contains(p)
}

/// The key that the members of class `c` share.
pub open spec fn class_key<K>(classes: Seq<Seq<int>>, keys: Seq<K>, c: int) -> K {
    keys[classes[c][0]]
}

/// `classes` partitions the positions below `n` by key: every class is
/// non-empty and ascending, its members share one key, no two classes share
/// a key, classes are ordered by their first members, and every position
/// below `n` is in some class.
pub open spec fn is_grouping<K>(classes: Seq<Seq<int>>, keys: Seq<K>, n: int) -> bool {
    &&& forall|c: int| 0 <= c < classes.len() ==> (#[trigger] classes[c]).len() > 0
    &&& forall|c: int, a: int|
        0 <= c < classes.len() && 0 <= a < classes[c].len() ==> 0 <= #[trigger] classes[c][a] < n
    &&& forall|c: int, a: int, b: int|
        0 <= c < classes.len() && 0 <= a < b < classes[c].len() ==> #[trigger] classes[c][a]
            < #[trigger] classes[c][b]
    &&& forall|c: int, a: int|
        0 <= c < classes.len() && 0 <= a < classes[c].len() ==> keys[#[trigger] classes[c][a]]
            == class_key(classes, keys, c)
    &&& forall|c: int, d: int|
        0 <= c < d < classes.len() ==> #[trigger] class_key(classes, keys, c) != #[trigger] class_key(
            classes,
            keys,
            d,
        )
    &&& forall|c: int, d: int|
        0 <= c < d < classes.len() ==> (#[trigger] classes[c])[0] < (#[trigger] classes[d])[0]
    &&& forall|p: int| 0 <= p < n ==> #[trigger] covered(classes, p)
}

/// What `find_class` returns: the first class from `from` on with the key.
pub proof fn lemma_find_class<K>(classes: Seq<Seq<int>>, keys: Seq<K>, key: K, from: int)
    requires
        0 <= from <= classes.len(),
    ensures
        from <= find_class(classes, keys, key, from) <= classes.len(),
        find_class(classes, keys, key, from) < classes.len() ==> class_key(
            classes,
            keys,
            find_class(classes, keys, key, from),
        ) == key,
        forall|c: int|
            from <= c < find_class(classes, keys, key, from) ==> #[trigger] class_key(
                classes,
                keys,
                c,
            ) != key,
    decreases classes.len() - from,
{
    if from < classes.len() && keys[classes[from][0]] != key {
        lemma_find_class(classes, keys, key, from + 1);
    }
}

/// Placing position `n` keeps a grouping of the positions below `n` a
/// grouping of the positions up to `n`.
pub proof fn lemma_place<K>(classes: Seq<Seq<int>>, keys: Seq<K>, n: int)
    requires
        is_grouping(classes, keys, n),
        0 <= n,
    ensures
        is_grouping(place(classes, keys, n), keys, n + 1),
{
    let r = find_class(classes, keys, keys[n], 0);
    let next = place(classes, keys, n);
    lemma_find_class(classes, keys, keys[n], 0);
    if r < classes.len() {
        let grown = classes[r].push(n);
        assert(next == classes.update(r, grown));
        assert(class_key(classes, keys, r) == keys[n]);
        assert forall|c: int| 0 <= c < next.len() implies class_key(next, keys, c) == class_key(
            classes,
            keys,
            c,
        ) by {
            assert(next[c][0] == classes[c][0]);
        }
        assert forall|c: int, a: int| 0 <= c < next.len() && 0 <= a < next[c].len() implies 0
            <= #[trigger] next[c][a] < n + 1 && keys[next[c][a]] == class_key(next, keys, c) by {
            if c == r && a == classes[r].len() {
            } else {
                assert(next[c][a] == classes[c][a]);
            }
        }
        assert forall|c: int, a: int, b: int|
            0 <= c < next.len() && 0 <= a < b < next[c].len() implies #[trigger] next[c][a]
            < #[trigger] next[c][b] by {
            assert(next[c][a] == classes[c][a]);
            if c == r && b == classes[r].len() {
            } else {
                assert(next[c][b] == classes[c][b]);
            }
        }
        assert forall|c: int, d: int| 0 <= c < d < next.len() implies (#[trigger] next[c])[0] < (
        #[trigger] next[d])[0] by {
            assert(next[c][0] == classes[c][0]);
            assert(next[d][0] == classes[d][0]);
        }
        assert forall|p: int| 0 <= p < n + 1 implies #[trigger] covered(next, p) by {
            if p == n {
                assert(next[r][classes[r].len() as int] == n);
                assert(next[r].contains(n));
            } else {
                assert(covered(classes, p));
                let c = choose|c: int| 0 <= c < classes.len() && (#[trigger] classes[c]).contains(p);
                let a = choose|a: int| 0 <= a < classes[c].len() && classes[c][a] == p;
                assert(next[c][a] == p);
                assert(next[c].contains(p));
            }
        }
    } else {
        assert(next == classes.push(seq![n]));
        assert forall|c: int| 0 <= c < next.len() implies class_key(next, keys, c) == (if c
            < classes.len() {
            class_key(classes, keys, c)
        } else {
            keys[n]
        }) by {}
        assert forall|c: int, d: int| 0 <= c < d < next.len() implies (#[trigger] next[c])[0] < (
        #[trigger] next[d])[0] by {
            if d == classes.len() {
                assert(next[c][0] == classes[c][0]);
            }
        }
        assert forall|p: int| 0 <= p < n + 1 implies #[trigger] covered(next, p) by {
            if p == n {
                assert(next[classes.len() as int][0] == n);
                assert(next[classes.len() as int].contains(n));
            } else {
                assert(covered(classes, p));
                let c = choose|c: int| 0 <= c < classes.len() && (#[trigger] classes[c]).contains(p);
                assert(next[c] == classes[c]);
            }
        }
    }
}

/// The classes of the first `n` positions partition them by key.
pub proof fn lemma_group_prefix<K>(keys: Seq<K>, n: nat)
    ensures
        is_grouping(group_prefix(keys, n), keys, n as int),
    decreases n,
{
    if n > 0 {
        lemma_group_prefix(keys, (n - 1) as nat);
        lemma_place(group_prefix(keys, (n - 1) as nat), keys, n - 1);
    }
}

/// In a grouping, the class whose key a position has holds the position.
pub proof fn lemma_class_holds_its_key<K>(classes: Seq<Seq<int>>, keys: Seq<K>, n: int, c: int, p: int)
    requires
        is_grouping(classes, keys, n),
        0 <= c < classes.len(),
        0 <= p < n,
        keys[p] == class_key(classes, keys, c),
    ensures
        classes[c].contains(p),
{
    assert(covered(classes, p));
    let d = choose|d: int| 0 <= d < classes.len() && (#[trigger] classes[d]).contains(p);
    let a = choose|a: int| 0 <= a < classes[d].len() && classes[d][a] == p;
    assert(keys[classes[d][a]] == class_key(classes, keys, d));
    if d < c {
        assert(class_key(classes, keys, d) != class_key(classes, keys, c));
    }
    if c < d {
        assert(class_key(classes, keys, c) != class_key(classes, keys, d));
    }
}

/// In a grouping, the first member of a class is the first position with
/// the key of the class.
pub proof fn lemma_head_is_first<K>(classes: Seq<Seq<int>>, keys: Seq<K>, n: int, c: int, q: int)
    requires
        is_grouping(classes, keys, n),
        0 <= c < classes.len(),
        0 <= q < classes[c][0],
    ensures
        keys[q] != class_key(classes, keys, c),
{
    assert(classes[c].len() > 0);
    assert(0 <= classes[c][0] < n);
    if keys[q] == class_key(classes, keys, c) {
        lemma_class_holds_its_key(classes, keys, n, c, q);
        let a = choose|a: int| 0 <= a < classes[c].len() && classes[c][a] == q;
        if a > 0 {
            assert(classes[c][0] < classes[c][a]);
        }
    }
}

/// The position at the head of a class of one grouping is at the head of a
/// class of every other grouping of the same keys.
proof fn lemma_head_is_a_head<K>(
    one: Seq<Seq<int>>,
    other: Seq<Seq<int>>,
    keys: Seq<K>,
    n: int,
    c: int,
) -> (d: int)
    requires
        is_grouping(one, keys, n),
        is_grouping(other, keys, n),
        0 <= c < one.len(),
    ensures
        0 <= d < other.len(),
        other[d][0] == one[c][0],
{
    let h = one[c][0];
    assert(one[c].len() > 0);
    assert(0 <= one[c][0] < n);
    assert(keys[one[c][0]] == class_key(one, keys, c));
    assert(covered(other, h));
    let d = choose|d: int| 0 <= d < other.len() && (#[trigger] other[d]).contains(h);
    let a = choose|a: int| 0 <= a < other[d].len() && other[d][a] == h;
    assert(keys[other[d][a]] == class_key(other, keys, d));
    if a > 0 {
        let q = other[d][0];
        assert(other[d][0] < other[d][a]);
        assert(0 <= other[d][0] < n);
        assert(keys[other[d][0]] == class_key(other, keys, d));
        lemma_head_is_first(one, keys, n, c, q);
    }
    d
}

/// Two groupings of the same keys have the same first members, class by
/// class.
proof fn lemma_heads_agree<K>(
    one: Seq<Seq<int>>,
    other: Seq<Seq<int>>,
    keys: Seq<K>,
    n: int,
    c: int,
)
    requires
        is_grouping(one, keys, n),
        is_grouping(other, keys, n),
        0 <= c < one.len(),
    ensures
        c < other.len(),
        other[c][0] == one[c][0],
    decreases c,
{
    let d = lemma_head_is_a_head(one, other, keys, n, c);
    if d < c {
        lemma_heads_agree(one, other, keys, n, d);
        assert((#[trigger] one[d])[0] < (#[trigger] one[c])[0]);
    } else if d > c {
        let e = lemma_head_is_a_head(other, one, keys, n, c);
        assert((#[trigger] other[c])[0] < (#[trigger] other[d])[0]);
        if e < c {
            lemma_heads_agree(one, other, keys, n, e);
            assert((#[trigger] other[e])[0] < (#[trigger] other[c])[0]);
        } else if e > c {
            assert((#[trigger] one[c])[0] < (#[trigger] one[e])[0]);
        }
    }
}

/// The keys decide the grouping: there is only one.
pub proof fn lemma_grouping_is_unique<K>(
    one: Seq<Seq<int>>,
    other: Seq<Seq<int>>,
    keys: Seq<K>,
    n: int,
)
    requires
        is_grouping(one, keys, n),
        is_grouping(other, keys, n),
    ensures
        one == other,
{
    if one.len() > 0 {
        lemma_heads_agree(one, other, keys, n, one.len() - 1);
    }
    if other.len() > 0 {
        lemma_heads_agree(other, one, keys, n, other.len() - 1);
    }
    assert(one.len() == other.len());
    let ascending = |x: int, y: int| x < y;
    assert forall|c: int| 0 <= c < one.len() implies #[trigger] one[c] == other[c] by {
        lemma_heads_agree(one, other, keys, n, c);
        assert(class_key(one, keys, c) == class_key(other, keys, c));
        assert forall|x: int| one[c].contains(x) implies other[c].contains(x) by {
            let a = choose|a: int| 0 <= a < one[c].len() && one[c][a] == x;
            assert(0 <= one[c][a] < n);
            assert(keys[one[c][a]] == class_key(one, keys, c));
            lemma_class_holds_its_key(other, keys, n, c, x);
        }
        assert forall|x: int| other[c].contains(x) implies one[c].contains(x) by {
            let a = choose|a: int| 0 <= a < other[c].len() && other[c][a] == x;
            assert(0 <= other[c][a] < n);
            assert(keys[other[c][a]] == class_key(other, keys, c));
            lemma_class_holds_its_key(one, keys, n, c, x);
        }
        assert forall|j: int, k: int| 0 <= j < k < one[c].len() implies ascending(
            #[trigger] one[c][j],
            #[trigger] one[c][k],
        ) by {}
        assert forall|j: int, k: int| 0 <= j < k < other[c].len() implies ascending(
            #[trigger] other[c][j],
            #[trigger] other[c][k],
        ) by {}
        lemma_ordered_sequences_agree(one[c], other[c], ascending);
    }
    assert(one =~= other);
}

/// The positions below `n` that satisfy `keep`, in ascending order.
pub open spec fn positions_where(n: nat, keep: spec_fn(int) -> bool) -> Seq<int>
    decreases n,
{
    if n == 0 {
        Seq::empty()
    } else if keep(n - 1) {
        positions_where((n - 1) as nat, keep).push(n - 1)
    } else {
        positions_where((n - 1) as nat, keep)
    }
}

/// `positions_where` lists exactly the positions below `n` that satisfy
/// `keep`, each once and in ascending order.
pub proof fn lemma_positions_where(n: nat, keep: spec_fn(int) -> bool)
    ensures
        positions_where(n, keep).len() <= n,
        forall|k: int|
            0 <= k < positions_where(n, keep).len() ==> 0 <= #[trigger] positions_where(n, keep)[k]
                < n && keep(positions_where(n, keep)[k]),
        forall|j: int, k: int|
            0 <= j < k < positions_where(n, keep).len() ==> #[trigger] positions_where(n, keep)[j]
                < #[trigger] positions_where(n, keep)[k],
        forall|p: int| 0 <= p < n && keep(p) ==> #[trigger] positions_where(n, keep).contains(p),
    decreases n,
{
    if n > 0 {
        let rest = positions_where((n - 1) as nat, keep);
        let all = positions_where(n, keep);
        lemma_positions_where((n - 1) as nat, keep);
        assert forall|p: int| 0 <= p < n && keep(p) implies #[trigger] all.contains(p) by {
            if p == n - 1 {
                assert(all[rest.len() as int] == p);
            } else {
                assert(rest.contains(p));
                let k = choose|k: int| 0 <= k < rest.len() && rest[k] == p;
                assert(all[k] == p);
            }
        }
    }
}

/// Two conditions that agree below `n` select the same positions.
pub proof fn lemma_positions_where_agree(
    n: nat,
    keep: spec_fn(int) -> bool,
    other: spec_fn(int) -> bool,
)
    requires
        forall|i: int| 0 <= i < n ==> #[trigger] keep(i) == other(i),
    ensures
        positions_where(n, keep) == positions_where(n, other),
    decreases n,
{
    if n > 0 {
        lemma_positions_where_agree((n - 1) as nat, keep, other);
        assert(keep(n - 1) == other(n - 1));
    }
}

/// Every member of every class stands in the classes laid end to end.
pub proof fn lemma_flatten_holds_members(classes: Seq<Seq<int>>, c: int, a: int)
    requires
        0 <= c < classes.len(),
        0 <= a < classes[c].len(),
    ensures
        classes.flatten().contains(classes[c][a]),
    decreases classes.len(),
{
    let rest = classes.drop_first();
    if c == 0 {
        assert(classes.flatten()[a] == classes[0][a]);
    } else {
        lemma_flatten_holds_members(rest, c - 1, a);
        assert(rest[c - 1] == classes[c]);
        let k = choose|k: int| 0 <= k < rest.flatten().len() && rest.flatten()[k] == classes[c][a];
        assert(classes.flatten()[classes[0].len() + k] == classes[c][a]);
    }
}

/// The items at the given positions, in the order of the positions.
pub open spec fn select<T>(items: Seq<T>, positions: Seq<int>) -> Seq<T> {
    Seq::new(positions.len(), |k: int| items[positions[k]])
}

/// No member occurs twice, neither within one class nor in two classes.
pub open spec fn injective(classes: Seq<Seq<int>>) -> bool {
    forall|c: int, a: int, d: int, b: int|
        0 <= c < classes.len() && 0 <= a < classes[c].len() && 0 <= d < classes.len() && 0 <= b
            < classes[d].len() && #[trigger] classes[c][a] == #[trigger] classes[d][b] ==> c == d
            && a == b
}

/// Some class holds both `x` and `y`.
pub open spec fn joined(classes: Seq<Seq<int>>, x: int, y: int) -> bool {
    exists|c: int|
        0 <= c < classes.len() && (#[trigger] classes[c]).contains(x) && classes[c].contains(y)
}

/// The classes with at least two members, in their order.
pub open spec fn shared(classes: Seq<Seq<int>>) -> Seq<Seq<int>> {
    select(classes, positions_where(classes.len(), has_two(classes)))
}

/// Class `c` has at least two members.
pub open spec fn has_two(classes: Seq<Seq<int>>) -> spec_fn(int) -> bool {
    |c: int| classes[c].len() >= 2
}

/// Maps a class of positions in `items` to the items at those positions.
pub open spec fn picking(items: Seq<int>) -> spec_fn(Seq<int>) -> Seq<int> {
    |class: Seq<int>| select(items, class)
}

/// `shared` keeps exactly the classes with two or more members; what held
/// of the members of all classes holds of those that are kept.
pub proof fn lemma_shared(classes: Seq<Seq<int>>)
    ensures
        forall|k: int|
            0 <= k < shared(classes).len() ==> (#[trigger] shared(classes)[k]).len() >= 2
                && classes.contains(shared(classes)[k]),
        forall|c: int|
            0 <= c < classes.len() && (#[trigger] classes[c]).len() >= 2 ==> shared(
                classes,
            ).contains(classes[c]),
        injective(classes) ==> injective(shared(classes)),
{
    let keep = has_two(classes);
    let ps = positions_where(classes.len(), keep);
    let kept = shared(classes);
    lemma_positions_where(classes.len(), keep);
    assert forall|k: int| 0 <= k < kept.len() implies (#[trigger] kept[k]).len() >= 2
        && classes.contains(kept[k]) by {
        assert(kept[k] == classes[ps[k]]);
        assert(keep(ps[k]));
    }
    assert forall|c: int| 0 <= c < classes.len() && (#[trigger] classes[c]).len() >= 2 implies kept.contains(
        classes[c],
    ) by {
        assert(keep(c));
        assert(ps.contains(c));
        let k = choose|k: int| 0 <= k < ps.len() && ps[k] == c;
        assert(kept[k] == classes[c]);
    }
    if injective(classes) {
        assert forall|c: int, a: int, d: int, b: int|
            0 <= c < kept.len() && 0 <= a < kept[c].len() && 0 <= d < kept.len() && 0 <= b
                < kept[d].len() && #[trigger] kept[c][a] == #[trigger] kept[d][b] implies c == d
            && a == b by {
            assert(kept[c] == classes[ps[c]]);
            assert(kept[d] == classes[ps[d]]);
            assert(classes[ps[c]][a] == classes[ps[d]][b]);
            assert(ps[c] == ps[d]);
            if c < d {
                assert(ps[c] < ps[d]);
            }
            if d < c {
                assert(ps[d] < ps[c]);
            }
        }
    }
}

/// The classes of `items` by `key_of`: each class lists the items of one
/// key in the order in which they stand in `items`.
pub open spec fn group_by<K>(items: Seq<int>, key_of: spec_fn(int) -> K) -> Seq<Seq<int>> {
    group_positions(items.map_values(key_of)).map_values(picking(items))
}

/// The classes of distinct items partition them: classes are non-empty and
/// hold items only, the members of a class share their key, no item occurs
/// twice, and items of equal key share a class.
pub proof fn lemma_group_by<K>(items: Seq<int>, key_of: spec_fn(int) -> K)
    requires
        items.no_duplicates(),
    ensures
        forall|c: int|
            0 <= c < group_by(items, key_of).len() ==> (#[trigger] group_by(items, key_of)[c]).len()
                >= 1,
        forall|c: int, a: int|
            0 <= c < group_by(items, key_of).len() && 0 <= a < group_by(items, key_of)[c].len()
                ==> items.contains(#[trigger] group_by(items, key_of)[c][a]) && key_of(
                group_by(items, key_of)[c][a],
            ) == key_of(group_by(items, key_of)[c][0]),
        injective(group_by(items, key_of)),
        forall|x: int, y: int|
            items.contains(x) && items.contains(y) && key_of(x) == key_of(y) ==> #[trigger] joined(
                group_by(items, key_of),
                x,
                y,
            ),
{
    let keys = items.map_values(key_of);
    let g = group_positions(keys);
    let by = group_by(items, key_of);
    lemma_group_prefix(keys, keys.len());
    assert forall|c: int, a: int| 0 <= c < by.len() && 0 <= a < by[c].len() implies by[c][a]
        == items[g[c][a]] && 0 <= #[trigger] g[c][a] < items.len() && key_of(by[c][a])
        == class_key(g, keys, c) by {
        assert(by[c] == select(items, g[c]));
        assert(keys[g[c][a]] == class_key(g, keys, c));
    }
    assert forall|c: int| 0 <= c < by.len() implies (#[trigger] by[c]).len() >= 1 by {
        assert(by[c] == select(items, g[c]));
        assert(g[c].len() > 0);
    }
    assert forall|c: int, a: int| 0 <= c < by.len() && 0 <= a < by[c].len() implies items.contains(
        #[trigger] by[c][a],
    ) && key_of(by[c][a]) == key_of(by[c][0]) by {
        assert(0 <= g[c][a] < items.len());
        assert(g[c].len() > 0);
        assert(0 <= g[c][0] < items.len());
        assert(by[c] == select(items, g[c]));
    }
    assert forall|c: int, a: int, d: int, b: int|
        0 <= c < by.len() && 0 <= a < by[c].len() && 0 <= d < by.len() && 0 <= b < by[d].len()
            && #[trigger] by[c][a] == #[trigger] by[d][b] implies c == d && a == b by {
        assert(by[c] == select(items, g[c]));
        assert(by[d] == select(items, g[d]));
        let p = g[c][a];
        let q = g[d][b];
        assert(0 <= p < items.len() && 0 <= q < items.len());
        assert(items[p] == items[q]);
        assert(p == q);
        assert(keys[p] == class_key(g, keys, c));
        assert(keys[q] == class_key(g, keys, d));
        if c < d {
            assert(class_key(g, keys, c) != class_key(g, keys, d));
        }
        if d < c {
            assert(class_key(g, keys, d) != class_key(g, keys, c));
        }
        if a < b {
            assert(g[c][a] < g[c][b]);
        }
        if b < a {
            assert(g[c][b] < g[c][a]);
        }
    }
    assert forall|x: int, y: int|
        items.contains(x) && items.contains(y) && key_of(x) == key_of(y) implies #[trigger] joined(
        by,
        x,
        y,
    ) by {
        let p = choose|p: int| 0 <= p < items.len() && items[p] == x;
        let q = choose|q: int| 0 <= q < items.len() && items[q] == y;
        assert(covered(g, p));
        assert(covered(g, q));
        let c = choose|c: int| 0 <= c < g.len() && (#[trigger] g[c]).contains(p);
        let d = choose|d: int| 0 <= d < g.len() && (#[trigger] g[d]).contains(q);
        let a = choose|a: int| 0 <= a < g[c].len() && g[c][a] == p;
        let b = choose|b: int| 0 <= b < g[d].len() && g[d][b] == q;
        assert(keys[g[c][a]] == class_key(g, keys, c));
        assert(keys[g[d][b]] == class_key(g, keys, d));
        assert(keys[p] == key_of(x));
        assert(keys[q] == key_of(y));
        if c < d {
            assert(class_key(g, keys, c) != class_key(g, keys, d));
        }
        if d < c {
            assert(class_key(g, keys, d) != class_key(g, keys, c));
        }
        assert(by[c] == select(items, g[c]));
        assert(by[c][a] == x);
        assert(by[c][b] == y);
        assert(by[c].contains(x));
        assert(by[c].contains(y));
    }
}

/// The classes of two or more among the classes of distinct items: their
/// members are items that share their key, no item occurs twice, and two
/// different items of equal key share a class.
pub proof fn lemma_shared_group_by<K>(items: Seq<int>, key_of: spec_fn(int) -> K)
    requires
        items.no_duplicates(),
    ensures
        forall|k: int|
            0 <= k < shared(group_by(items, key_of)).len() ==> (#[trigger] shared(
                group_by(items, key_of),
            )[k]).len() >= 2,
        forall|k: int, a: int|
            0 <= k < shared(group_by(items, key_of)).len() && 0 <= a < shared(
                group_by(items, key_of),
            )[k].len() ==> items.contains(#[trigger] shared(group_by(items, key_of))[k][a])
                && key_of(shared(group_by(items, key_of))[k][a]) == key_of(
                shared(group_by(items, key_of))[k][0],
            ),
        injective(shared(group_by(items, key_of))),
        forall|x: int, y: int|
            x != y && items.contains(x) && items.contains(y) && key_of(x) == key_of(y)
                ==> #[trigger] joined(shared(group_by(items, key_of)), x, y),
{
    let all = group_by(items, key_of);
    let kept = shared(all);
    lemma_group_by(items, key_of);
    lemma_shared(all);
    assert forall|k: int, a: int| 0 <= k < kept.len() && 0 <= a < kept[k].len() implies items.contains(
        #[trigger] kept[k][a],
    ) && key_of(kept[k][a]) == key_of(kept[k][0]) by {
        assert(all.contains(kept[k]));
        let c = choose|c: int| 0 <= c < all.len() && all[c] == kept[k];
        assert(items.contains(all[c][a]));
        assert(key_of(all[c][a]) == key_of(all[c][0]));
    }
    assert forall|x: int, y: int|
        x != y && items.contains(x) && items.contains(y) && key_of(x) == key_of(
            y,
        ) implies #[trigger] joined(kept, x, y) by {
        assert(joined(all, x, y));
        let c = choose|c: int|
            0 <= c < all.len() && (#[trigger] all[c]).contains(x) && all[c].contains(y);
        let a = choose|a: int| 0 <= a < all[c].len() && all[c][a] == x;
        let b = choose|b: int| 0 <= b < all[c].len() && all[c][b] == y;
        assert(a != b);
        assert(all[c].len() >= 2);
        assert(kept.contains(all[c]));
        let k = choose|k: int| 0 <= k < kept.len() && kept[k] == all[c];
        assert(kept[k].contains(x) && kept[k].contains(y));
    }
}

/// A class of positions as the executable code holds it.
pub open spec fn positions_view(class: Seq<usize>) -> Seq<int> {
    class.map_values(|p: usize| p as int)
}

/// Classes of positions as the executable code holds them.
pub open spec fn classes_view(classes: Seq<Vec<usize>>) -> Seq<Seq<int>> {
    classes.map_values(|class: Vec<usize>| positions_view(class@))
}

/// The texts of a sequence of strings.
pub open spec fn texts(strings: Seq<String>) -> Seq<Seq<char>> {
    strings.map_values(|s: String| s@)
}

/// Groups the positions of `keys` by key, looking classes up in a hash map.
///
/// The result is the one grouping of the keys: `lemma_grouping_is_unique`.
pub fn group_by_size(keys: &Vec<u64>) -> (classes: Vec<Vec<usize>>)
    ensures
        classes_view(classes@) == group_positions(keys@),
        is_grouping(classes_view(classes@), keys@, keys@.len() as int),
{
    let mut classes: Vec<Vec<usize>> = Vec::new();
    let mut index: HashMap<u64, usize> = HashMap::new();
    let mut p: usize = 0;
    while p < keys.len()
        invariant
            p <= keys.len(),
            classes_view(classes@) == group_prefix(keys@, p as nat),
            forall|k: u64| #[trigger]
                index@.contains_key(k) ==> index@[k] < classes.len() && class_key(
                    classes_view(classes@),
                    keys@,
                    index@[k] as int,
                ) == k,
            forall|c: int|
                0 <= c < classes.len() ==> index@.contains_key(
                    #[trigger] class_key(classes_view(classes@), keys@, c),
                ),
        decreases keys.len() - p,
    {
        let ghost before = classes_view(classes@);
        let key = keys[p];
        proof {
            lemma_group_prefix(keys@, p as nat);
            lemma_find_class(before, keys@, key, 0);
        }
        match index.get(&key) {
            Some(slot) => {
                let c = *slot;
                assert(find_class(before, keys@, key, 0) == c) by {
                    let r = find_class(before, keys@, key, 0);
                    if r < before.len() {
                        assert(class_key(before, keys@, r) == key);
                        assert(class_key(before, keys@, c as int) == key);
                    } else {
                        assert(class_key(before, keys@, c as int) == key);
                    }
                }
                classes[c].push(p);
                assert(classes_view(classes@) =~~= place(before, keys@, p as int));
            },
            None => {
                assert(find_class(before, keys@, key, 0) == before.len()) by {
                    let r = find_class(before, keys@, key, 0);
                    if r < before.len() {
                        assert(index@.contains_key(class_key(before, keys@, r)));
                    }
                }
                index.insert(key, classes.len());
                let mut class: Vec<usize> = Vec::new();
                class.push(p);
                classes.push(class);
                assert(classes_view(classes@) =~~= place(before, keys@, p as int));
            },
        }
        proof {
            lemma_place(before, keys@, p as int);
            let after = classes_view(classes@);
            assert forall|c: int| 0 <= c < after.len() implies class_key(after, keys@, c) == (if c
                < before.len() {
                class_key(before, keys@, c)
            } else {
                key
            }) by {
                if c < before.len() {
                    assert(after[c][0] == before[c][0]);
                }
            }
        }
        p = p + 1;
    }
    proof {
        lemma_group_prefix(keys@, keys@.len());
    }
    classes
}

/// Groups the positions of `keys` by text, searching the classes in order.
///
/// The result is the one grouping of the keys: `lemma_grouping_is_unique`.
pub fn group_by_text(keys: &Vec<String>) -> (classes: Vec<Vec<usize>>)
    ensures
        classes_view(classes@) == group_positions(texts(keys@)),
        is_grouping(classes_view(classes@), texts(keys@), keys@.len() as int),
{
    let ghost ks = texts(keys@);
    let mut classes: Vec<Vec<usize>> = Vec::new();
    let mut p: usize = 0;
    while p < keys.len()
        invariant
            p <= keys.len(),
            ks == texts(keys@),
            classes_view(classes@) == group_prefix(ks, p as nat),
        decreases keys.len() - p,
    {
        let ghost before = classes_view(classes@);
        proof {
            lemma_group_prefix(ks, p as nat);
        }
        let mut c: usize = 0;
        let mut found = false;
        while c < classes.len() && !found
            invariant
                c <= classes.len(),
                p < keys.len(),
                ks == texts(keys@),
                before == classes_view(classes@),
                is_grouping(before, ks, p as int),
                find_class(before, ks, ks[p as int], 0) == find_class(
                    before,
                    ks,
                    ks[p as int],
                    c as int,
                ),
                found ==> c < classes.len() && find_class(before, ks, ks[p as int], 0) == c,
            decreases classes.len() - c + (if found { 0int } else { 1int }),
        {
            assert(before[c as int].len() > 0);
            assert(0 <= before[c as int][0] < p);
            let head = classes[c][0];
            assert(head as int == before[c as int][0]);
            if keys[head] == keys[p] {
                found = true;
            } else {
                c = c + 1;
            }
        }
        if found {
            classes[c].push(p);
        } else {
            let mut class: Vec<usize> = Vec::new();
            class.push(p);
            classes.push(class);
        }
        assert(classes_view(classes@) =~~= place(before, ks, p as int));
        p = p + 1;
    }
    proof {
        lemma_group_prefix(ks, ks.len());
    }
    classes
}

/// The items at the positions that `class` lists.
fn pick(items: &Vec<usize>, class: &Vec<usize>) -> (picked: Vec<usize>)
    requires
        forall|a: int| 0 <= a < class.len() ==> class[a] < items.len(),
    ensures
        positions_view(picked@) == select(positions_view(items@), positions_view(class@)),
{
    let mut picked: Vec<usize> = Vec::new();
    let mut a: usize = 0;
    while a < class.len()
        invariant
            a <= class.len(),
            forall|a: int| 0 <= a < class.len() ==> class[a] < items.len(),
            picked.len() == a,
            forall|k: int| 0 <= k < a ==> picked[k] == items[class[k] as int],
        decreases class.len() - a,
    {
        picked.push(items[class[a]]);
        a = a + 1;
    }
    assert(positions_view(picked@) =~= select(positions_view(items@), positions_view(class@)));
    picked
}

/// The classes with two or more members, each as the items at its
/// positions.
pub(crate) fn shared_classes(items: &Vec<usize>, classes: &Vec<Vec<usize>>) -> (kept: Vec<Vec<usize>>)
    requires
        forall|c: int, a: int|
            0 <= c < classes.len() && 0 <= a < classes[c].len() ==> #[trigger] classes[c][a]
                < items.len(),
    ensures
        classes_view(kept@) == shared(
            classes_view(classes@).map_values(picking(positions_view(items@))),
        ),
{
    let ghost all = classes_view(classes@).map_values(picking(positions_view(items@)));
    let mut kept: Vec<Vec<usize>> = Vec::new();
    let mut c: usize = 0;
    while c < classes.len()
        invariant
            c <= classes.len(),
            forall|c: int, a: int|
                0 <= c < classes.len() && 0 <= a < classes[c].len() ==> #[trigger] classes[c][a]
                    < items.len(),
            all == classes_view(classes@).map_values(picking(positions_view(items@))),
            classes_view(kept@) == select(all, positions_where(c as nat, has_two(all))),
        decreases classes.len() - c,
    {
        let ghost before = classes_view(kept@);
        let ghost positions = positions_where(c as nat, has_two(all));
        assert(all[c as int] == select(positions_view(items@), positions_view(classes[c as int]@)));
        assert(all[c as int].len() == classes[c as int].len());
        if classes[c].len() >= 2 {
            assert forall|a: int| 0 <= a < classes[c as int].len() implies classes[c as int][a]
                < items.len() by {
                assert(classes[c as int][a] < items.len());
            }
            let picked = pick(items, &classes[c]);
            kept.push(picked);
            assert(has_two(all)(c as int));
            assert(positions_where((c + 1) as nat, has_two(all)) == positions.push(c as int));
            assert(classes_view(kept@) =~= before.push(all[c as int]));
            assert(select(all, positions.push(c as int)) =~= select(all, positions).push(
                all[c as int],
            ));
        } else {
            assert(!has_two(all)(c as int));
        }
        c = c + 1;
    }
    kept
}

} // verus!
