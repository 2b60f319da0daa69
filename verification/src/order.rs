//! Stable ordering of positions by descending size.

use crate::grouper::positions_view;
use vstd::prelude::*;

verus! {

/// The first slot at or after `from` whose occupant is smaller than `size`,
/// or the length of `order` if there is none.
pub open spec fn find_slot(order: Seq<int>, sizes: Seq<u64>, size: u64, from: int) -> int
    decreases order.len() - from,
{
    if from < 0 || from >= order.len() {
        order.len() as int
    } else if sizes[order[from]] < size {
        from
    } else {
        find_slot(order, sizes, size, from + 1)
    }
}

/// `order` with position `p` inserted behind every position whose size is
/// at least that of `p`.
pub open spec fn insert_by_size(order: Seq<int>, sizes: Seq<u64>, p: int) -> Seq<int> {
    order.insert(find_slot(order, sizes, sizes[p], 0), p)
}

/// The first `n` positions of `sizes`, ordered by descending size.
pub open spec fn descending_prefix(sizes: Seq<u64>, n: nat) -> Seq<int>
    decreases n,
{
    if n == 0 {
        Seq::empty()
    } else {
        insert_by_size(descending_prefix(sizes, (n - 1) as nat), sizes, n - 1)
    }
}

/// The positions of `sizes` ordered by descending size; positions of equal
/// size keep their relative order.
pub open spec fn descending_order(sizes: Seq<u64>) -> Seq<int> {
    descending_prefix(sizes, sizes.len())
}

/// `order` lists each position below `n` once, larger sizes first and equal
/// sizes in ascending position.
pub open spec fn is_descending_order(order: Seq<int>, sizes: Seq<u64>, n: int) -> bool {
    &&& order.len() == n
    &&& forall|k: int| 0 <= k < order.len() ==> 0 <= #[trigger] order[k] < n
    &&& forall|j: int, k: int|
        0 <= j < k < order.len() ==> sizes[#[trigger] order[j]] >= sizes[#[trigger] order[k]]
    &&& forall|j: int, k: int|
        0 <= j < k < order.len() && sizes[order[j]] == sizes[order[k]] ==> #[trigger] order[j]
            < #[trigger] order[k]
    &&& forall|p: int| 0 <= p < n ==> #[trigger] order.contains(p)
}

/// What `find_slot` returns: every occupant before the slot is at least
/// `size`, and the occupant of the slot, if any, is smaller.
pub proof fn lemma_find_slot(order: Seq<int>, sizes: Seq<u64>, size: u64, from: int)
    requires
        0 <= from <= order.len(),
    ensures
        from <= find_slot(order, sizes, size, from) <= order.len(),
        find_slot(order, sizes, size, from) < order.len() ==> sizes[order[find_slot(
            order,
            sizes,
            size,
            from,
        )]] < size,
        forall|k: int|
            from <= k < find_slot(order, sizes, size, from) ==> sizes[#[trigger] order[k]] >= size,
    decreases order.len() - from,
{
    if from < order.len() && sizes[order[from]] >= size {
        lemma_find_slot(order, sizes, size, from + 1);
    }
}

/// Inserting position `n` by size keeps a descending order of the
/// positions below `n` a descending order of the positions up to `n`.
pub proof fn lemma_insert_by_size(order: Seq<int>, sizes: Seq<u64>, n: int)
    requires
        is_descending_order(order, sizes, n),
    ensures
        is_descending_order(insert_by_size(order, sizes, n), sizes, n + 1),
{
    let r = find_slot(order, sizes, sizes[n], 0);
    let next = insert_by_size(order, sizes, n);
    lemma_find_slot(order, sizes, sizes[n], 0);
    assert(next.len() == n + 1);
    assert forall|k: int| 0 <= k < next.len() implies #[trigger] next[k] == (if k < r {
        order[k]
    } else if k == r {
        n
    } else {
        order[k - 1]
    }) by {}
    assert forall|k: int| r <= k < order.len() implies sizes[#[trigger] order[k]] < sizes[n] by {
        if r < k {
            assert(sizes[order[r]] >= sizes[order[k]]);
        }
    }
    assert forall|j: int, k: int| 0 <= j < k < next.len() implies sizes[#[trigger] next[j]]
        >= sizes[#[trigger] next[k]] by {
        if j < r && k > r {
            assert(sizes[order[j]] >= sizes[order[k - 1]]);
        } else if j < r && k < r {
            assert(sizes[order[j]] >= sizes[order[k]]);
        } else if j > r {
            assert(sizes[order[j - 1]] >= sizes[order[k - 1]]);
        } else if j == r {
            assert(sizes[order[k - 1]] < sizes[n]);
        }
    }
    assert forall|j: int, k: int|
        0 <= j < k < next.len() && sizes[next[j]] == sizes[next[k]] implies #[trigger] next[j]
        < #[trigger] next[k] by {
        if j < r && k > r {
            assert(order[j] < order[k - 1]);
        } else if j < r && k < r {
            assert(order[j] < order[k]);
        } else if j > r {
            assert(order[j - 1] < order[k - 1]);
        } else if j == r {
            assert(sizes[order[k - 1]] < sizes[n]);
        } else {
            assert(0 <= order[j] < n);
        }
    }
    assert forall|p: int| 0 <= p < n + 1 implies #[trigger] next.contains(p) by {
        if p == n {
            assert(next[r] == n);
        } else {
            assert(order.contains(p));
            let k = choose|k: int| 0 <= k < order.len() && order[k] == p;
            if k < r {
                assert(next[k] == p);
            } else {
                assert(next[k + 1] == p);
            }
        }
    }
}

/// The descending order of the first `n` positions is one.
pub proof fn lemma_descending_prefix(sizes: Seq<u64>, n: nat)
    ensures
        is_descending_order(descending_prefix(sizes, n), sizes, n as int),
    decreases n,
{
    if n > 0 {
        lemma_descending_prefix(sizes, (n - 1) as nat);
        lemma_insert_by_size(descending_prefix(sizes, (n - 1) as nat), sizes, n - 1);
    }
}

/// A descending order names no position twice.
pub proof fn lemma_descending_order_distinct(order: Seq<int>, sizes: Seq<u64>, n: int)
    requires
        is_descending_order(order, sizes, n),
    ensures
        order.no_duplicates(),
{
    assert forall|j: int, k: int| 0 <= j < order.len() && 0 <= k < order.len() && j != k implies order[j]
        != order[k] by {
        if j < k {
            if order[j] == order[k] {
                assert(sizes[order[j]] == sizes[order[k]]);
            }
        } else {
            if order[k] == order[j] {
                assert(sizes[order[k]] == sizes[order[j]]);
            }
        }
    }
}

/// Earlier members of `s` stand before later ones in the order `before`.
pub open spec fn strictly_ordered(s: Seq<int>, before: spec_fn(int, int) -> bool) -> bool {
    forall|j: int, k: int| 0 <= j < k < s.len() ==> before(#[trigger] s[j], #[trigger] s[k])
}

/// Two sequences with the same members, both ordered by `before`, agree on
/// their first `k` members.
proof fn lemma_ordered_prefixes_agree(
    a: Seq<int>,
    b: Seq<int>,
    before: spec_fn(int, int) -> bool,
    k: int,
)
    requires
        strictly_ordered(a, before),
        strictly_ordered(b, before),
        forall|x: int, y: int| #[trigger] before(x, y) ==> !before(y, x),
        forall|x: int| a.contains(x) ==> b.contains(x),
        forall|x: int| b.contains(x) ==> a.contains(x),
        0 <= k <= a.len(),
    ensures
        k <= b.len(),
        forall|j: int| 0 <= j < k ==> a[j] == b[j],
    decreases k,
{
    if k > 0 {
        let i = k - 1;
        lemma_ordered_prefixes_agree(a, b, before, i);
        let p = a[i];
        assert(a.contains(p));
        assert(b.contains(p));
        let m = choose|m: int| 0 <= m < b.len() && b[m] == p;
        if m < i {
            assert(a[m] == b[m]);
            assert(before(a[m], a[i]));
        } else if m > i {
            let q = b[i];
            assert(before(b[i], b[m]));
            assert(b.contains(q));
            assert(a.contains(q));
            let l = choose|l: int| 0 <= l < a.len() && a[l] == q;
            if l < i {
                assert(a[l] == b[l]);
                assert(before(b[l], b[i]));
            } else if l > i {
                assert(before(a[i], a[l]));
            }
        }
    }
}

/// Two sequences with the same members, both ordered by a relation that
/// never holds both ways, are the same sequence.
pub proof fn lemma_ordered_sequences_agree(
    a: Seq<int>,
    b: Seq<int>,
    before: spec_fn(int, int) -> bool,
)
    requires
        strictly_ordered(a, before),
        strictly_ordered(b, before),
        forall|x: int, y: int| #[trigger] before(x, y) ==> !before(y, x),
        forall|x: int| a.contains(x) ==> b.contains(x),
        forall|x: int| b.contains(x) ==> a.contains(x),
    ensures
        a == b,
{
    lemma_ordered_prefixes_agree(a, b, before, a.len() as int);
    lemma_ordered_prefixes_agree(b, a, before, b.len() as int);
    assert(a =~= b);
}

/// Position `p` comes before position `q` in a descending order: it has the
/// larger size, or the same size and is the smaller position.
pub open spec fn larger_first(sizes: Seq<u64>) -> spec_fn(int, int) -> bool {
    |p: int, q: int| sizes[p] > sizes[q] || (sizes[p] == sizes[q] && p < q)
}

/// The sizes decide the descending order: there is only one.
pub proof fn lemma_descending_order_is_unique(
    one: Seq<int>,
    other: Seq<int>,
    sizes: Seq<u64>,
    n: int,
)
    requires
        is_descending_order(one, sizes, n),
        is_descending_order(other, sizes, n),
    ensures
        one == other,
{
    let before = larger_first(sizes);
    assert forall|j: int, k: int| 0 <= j < k < one.len() implies before(
        #[trigger] one[j],
        #[trigger] one[k],
    ) by {
        assert(sizes[one[j]] >= sizes[one[k]]);
    }
    assert forall|j: int, k: int| 0 <= j < k < other.len() implies before(
        #[trigger] other[j],
        #[trigger] other[k],
    ) by {
        assert(sizes[other[j]] >= sizes[other[k]]);
    }
    assert forall|x: int| one.contains(x) implies other.contains(x) by {
        let k = choose|k: int| 0 <= k < one.len() && one[k] == x;
        assert(0 <= one[k] < n);
    }
    assert forall|x: int| other.contains(x) implies one.contains(x) by {
        let k = choose|k: int| 0 <= k < other.len() && other[k] == x;
        assert(0 <= other[k] < n);
    }
    lemma_ordered_sequences_agree(one, other, before);
}

/// Orders the positions of `sizes` by descending size, keeping positions of
/// equal size in their order.
///
/// The result is the one descending order of the sizes:
/// `lemma_descending_order_is_unique`.
pub fn order_by_size(sizes: &Vec<u64>) -> (order: Vec<usize>)
    ensures
        positions_view(order@) == descending_order(sizes@),
        is_descending_order(positions_view(order@), sizes@, sizes@.len() as int),
{
    let mut order: Vec<usize> = Vec::new();
    let mut p: usize = 0;
    while p < sizes.len()
        invariant
            p <= sizes.len(),
            positions_view(order@) == descending_prefix(sizes@, p as nat),
        decreases sizes.len() - p,
    {
        let ghost before = positions_view(order@);
        proof {
            lemma_descending_prefix(sizes@, p as nat);
        }
        let mut k: usize = 0;
        let mut found = false;
        while k < order.len() && !found
            invariant
                k <= order.len(),
                p < sizes.len(),
                before == positions_view(order@),
                is_descending_order(before, sizes@, p as int),
                find_slot(before, sizes@, sizes@[p as int], 0) == find_slot(
                    before,
                    sizes@,
                    sizes@[p as int],
                    k as int,
                ),
                found ==> k < order.len() && find_slot(before, sizes@, sizes@[p as int], 0) == k,
            decreases order.len() - k + (if found { 0int } else { 1int }),
        {
            assert(0 <= before[k as int] < p);
            let occupant = order[k];
            assert(occupant as int == before[k as int]);
            if sizes[occupant] < sizes[p] {
                found = true;
            } else {
                k = k + 1;
            }
        }
        order.insert(k, p);
        assert(positions_view(order@) =~= insert_by_size(before, sizes@, p as int));
        p = p + 1;
    }
    proof {
        lemma_descending_prefix(sizes@, sizes@.len());
    }
    order
}

} // verus!
