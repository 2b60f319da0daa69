//! Proofs that the stages of a scan yield the duplicate classes of the
//! listing.

use crate::grouper::{
    injective, joined, lemma_positions_where, lemma_shared_group_by, positions_where,
};
use crate::order::{descending_order, lemma_descending_order_distinct, lemma_descending_prefix};
use crate::stages::{
    EntryView, alike, class_size, comparable, digest_classes, digest_of, duplicate_groups,
    found_classes, group_record, has_digest, hashed_members, is_duplicate_partition,
    is_scan_result, is_sized, scan_classes, size_classes, size_of, sized_files, verified_classes,
    within,
};
use vstd::prelude::*;

verus! {

/// The sized files are exactly the entries that take part in a comparison
/// by size, each named once.
pub proof fn lemma_sized_files(entries: Seq<EntryView>)
    ensures
        sized_files(entries).no_duplicates(),
        forall|k: int|
            0 <= k < sized_files(entries).len() ==> comparable(
                entries,
                false,
                #[trigger] sized_files(entries)[k],
            ),
        forall|i: int| comparable(entries, false, i) ==> #[trigger] sized_files(entries).contains(i),
{
    let ps = sized_files(entries);
    lemma_positions_where(entries.len(), is_sized(entries));
    assert forall|j: int, k: int| 0 <= j < ps.len() && 0 <= k < ps.len() && j != k implies ps[j]
        != ps[k] by {
        if j < k {
            assert(ps[j] < ps[k]);
        } else {
            assert(ps[k] < ps[j]);
        }
    }
    assert forall|k: int| 0 <= k < ps.len() implies comparable(entries, false, #[trigger] ps[k]) by {
        assert(is_sized(entries)(ps[k]));
    }
    assert forall|i: int| comparable(entries, false, i) implies #[trigger] ps.contains(i) by {
        assert(is_sized(entries)(i));
    }
}

/// Stage one yields the duplicate classes by size.
pub proof fn lemma_size_classes(entries: Seq<EntryView>)
    ensures
        is_duplicate_partition(entries, false, size_classes(entries)),
{
    let items = sized_files(entries);
    let classes = size_classes(entries);
    lemma_sized_files(entries);
    lemma_shared_group_by(items, size_of(entries));
    assert forall|g: int, a: int| 0 <= g < classes.len() && 0 <= a < classes[g].len() implies comparable(
        entries,
        false,
        #[trigger] classes[g][a],
    ) && alike(entries, false, classes[g][a], classes[g][0]) by {
        assert(items.contains(classes[g][a]));
        assert(items.contains(classes[g][0]));
        assert(size_of(entries)(classes[g][a]) == size_of(entries)(classes[g][0]));
    }
    assert forall|i: int, j: int|
        i != j && comparable(entries, false, i) && comparable(entries, false, j) && alike(
            entries,
            false,
            i,
            j,
        ) implies #[trigger] joined(classes, i, j) by {
        assert(items.contains(i) && items.contains(j));
        assert(size_of(entries)(i) == size_of(entries)(j));
    }
}

/// Stage two on one class of distinct sized files: the classes that come
/// out hold members of that class which have a digest and share it; no
/// member occurs twice; two different members of equal digest share a
/// class.
pub proof fn lemma_digest_classes(entries: Seq<EntryView>, class: Seq<int>)
    requires
        class.no_duplicates(),
    ensures
        forall|k: int|
            0 <= k < digest_classes(entries, class).len() ==> (#[trigger] digest_classes(
                entries,
                class,
            )[k]).len() >= 2,
        forall|k: int, a: int|
            0 <= k < digest_classes(entries, class).len() && 0 <= a < digest_classes(
                entries,
                class,
            )[k].len() ==> {
                let x = #[trigger] digest_classes(entries, class)[k][a];
                &&& class.contains(x)
                &&& entries[x].digest is Some
                &&& entries[x].digest == entries[digest_classes(entries, class)[k][0]].digest
            },
        injective(digest_classes(entries, class)),
        forall|x: int, y: int|
            x != y && class.contains(x) && class.contains(y) && entries[x].digest is Some
                && entries[x].digest == entries[y].digest ==> #[trigger] joined(
                digest_classes(entries, class),
                x,
                y,
            ),
{
    let keep = has_digest(entries, class);
    let ps = positions_where(class.len(), keep);
    let items = hashed_members(entries, class);
    let classes = digest_classes(entries, class);
    lemma_positions_where(class.len(), keep);
    assert forall|j: int, k: int| 0 <= j < items.len() && 0 <= k < items.len() && j != k implies items[j]
        != items[k] by {
        if j < k {
            assert(ps[j] < ps[k]);
        } else {
            assert(ps[k] < ps[j]);
        }
    }
    assert forall|x: int| items.contains(x) implies class.contains(x) && entries[x].digest is Some by {
        let k = choose|k: int| 0 <= k < items.len() && items[k] == x;
        assert(keep(ps[k]));
        assert(class[ps[k]] == x);
    }
    assert forall|x: int| class.contains(x) && entries[x].digest is Some implies items.contains(
        x,
    ) by {
        let a = choose|a: int| 0 <= a < class.len() && class[a] == x;
        assert(keep(a));
        assert(ps.contains(a));
        let k = choose|k: int| 0 <= k < ps.len() && ps[k] == a;
        assert(items[k] == x);
    }
    lemma_shared_group_by(items, digest_of(entries));
    assert forall|k: int, a: int| 0 <= k < classes.len() && 0 <= a < classes[k].len() implies {
        let x = #[trigger] classes[k][a];
        &&& class.contains(x)
        &&& entries[x].digest is Some
        &&& entries[x].digest == entries[classes[k][0]].digest
    } by {
        assert(items.contains(classes[k][a]));
        assert(items.contains(classes[k][0]));
        assert(digest_of(entries)(classes[k][a]) == digest_of(entries)(classes[k][0]));
    }
    assert forall|x: int, y: int|
        x != y && class.contains(x) && class.contains(y) && entries[x].digest is Some
            && entries[x].digest == entries[y].digest implies #[trigger] joined(classes, x, y) by {
        assert(items.contains(x) && items.contains(y));
        assert(digest_of(entries)(x) == digest_of(entries)(y));
    }
}

/// The members of each class of an injective family are distinct.
pub proof fn lemma_injective_class(classes: Seq<Seq<int>>, c: int)
    requires
        injective(classes),
        0 <= c < classes.len(),
    ensures
        classes[c].no_duplicates(),
{
    assert forall|a: int, b: int| 0 <= a < classes[c].len() && 0 <= b < classes[c].len() && a
        != b implies classes[c][a] != classes[c][b] by {
        if classes[c][a] == classes[c][b] {
            assert(a == b);
        }
    }
}

/// Stage two on the first `n` candidates of stage one: the classes that
/// come out have two or more members, all from one candidate, with a digest
/// that they share; no entry occurs twice; two different members of one
/// candidate that have the same digest share a class.
pub proof fn lemma_verified_classes(entries: Seq<EntryView>, candidates: Seq<Seq<int>>, n: nat)
    requires
        is_duplicate_partition(entries, false, candidates),
        n <= candidates.len(),
    ensures
        forall|k: int|
            0 <= k < verified_classes(entries, candidates, n).len() ==> (#[trigger] verified_classes(
                entries,
                candidates,
                n,
            )[k]).len() >= 2,
        forall|k: int, a: int|
            0 <= k < verified_classes(entries, candidates, n).len() && 0 <= a < verified_classes(
                entries,
                candidates,
                n,
            )[k].len() ==> {
                let x = #[trigger] verified_classes(entries, candidates, n)[k][a];
                &&& within(candidates, n as int, x)
                &&& comparable(entries, true, x)
                &&& alike(entries, true, x, verified_classes(entries, candidates, n)[k][0])
            },
        injective(verified_classes(entries, candidates, n)),
        forall|c: int, x: int, y: int|
            0 <= c < n && x != y && (#[trigger] candidates[c]).contains(x) && candidates[c].contains(
                y,
            ) && entries[x].digest is Some && entries[x].digest == entries[y].digest
                ==> #[trigger] joined(verified_classes(entries, candidates, n), x, y),
    decreases n,
{
    if n > 0 {
        let m = (n - 1) as nat;
        let class = candidates[n - 1];
        let earlier = verified_classes(entries, candidates, m);
        let fresh = digest_classes(entries, class);
        let all = verified_classes(entries, candidates, n);
        lemma_verified_classes(entries, candidates, m);
        lemma_injective_class(candidates, n - 1);
        lemma_digest_classes(entries, class);
        assert(all == earlier + fresh);
        assert forall|k: int| 0 <= k < all.len() implies #[trigger] all[k] == (if k < earlier.len() {
            earlier[k]
        } else {
            fresh[k - earlier.len()]
        }) by {}
        assert forall|a: int| 0 <= a < class.len() implies comparable(
            entries,
            false,
            #[trigger] class[a],
        ) && alike(entries, false, class[a], class[0]) by {
            assert(class[a] == candidates[n - 1][a]);
        }
        assert forall|k: int, a: int| 0 <= k < all.len() && 0 <= a < all[k].len() implies {
            let x = #[trigger] all[k][a];
            &&& within(candidates, n as int, x)
            &&& comparable(entries, true, x)
            &&& alike(entries, true, x, all[k][0])
        } by {
            let x = all[k][a];
            if k < earlier.len() {
                assert(x == earlier[k][a]);
                assert(within(candidates, m as int, x));
                let c = choose|c: int| 0 <= c < m && (#[trigger] candidates[c]).contains(x);
                assert(candidates[c].contains(x));
            } else {
                let j = k - earlier.len();
                assert(x == fresh[j][a]);
                assert(fresh[j].len() >= 2);
                let head = fresh[j][0];
                assert(class.contains(x) && class.contains(head));
                assert(candidates[n - 1].contains(x));
                let i = choose|i: int| 0 <= i < class.len() && class[i] == x;
                let h = choose|h: int| 0 <= h < class.len() && class[h] == head;
                assert(comparable(entries, false, class[i]));
                assert(alike(entries, false, class[i], class[0]));
                assert(alike(entries, false, class[h], class[0]));
            }
        }
        assert forall|k: int, a: int, d: int, b: int|
            0 <= k < all.len() && 0 <= a < all[k].len() && 0 <= d < all.len() && 0 <= b
                < all[d].len() && #[trigger] all[k][a] == #[trigger] all[d][b] implies k == d && a
            == b by {
            let x = all[k][a];
            if k < earlier.len() && d < earlier.len() {
                assert(earlier[k][a] == earlier[d][b]);
            } else if k >= earlier.len() && d >= earlier.len() {
                assert(fresh[k - earlier.len()][a] == fresh[d - earlier.len()][b]);
            } else {
                let (old_k, old_a, new_k, new_b) = if k < earlier.len() {
                    (k, a, d - earlier.len(), b)
                } else {
                    (d, b, k - earlier.len(), a)
                };
                assert(earlier[old_k][old_a] == x);
                assert(fresh[new_k][new_b] == x);
                assert(within(candidates, m as int, x));
                let c = choose|c: int| 0 <= c < m && (#[trigger] candidates[c]).contains(x);
                let i = choose|i: int| 0 <= i < candidates[c].len() && candidates[c][i] == x;
                assert(class.contains(x));
                let h = choose|h: int| 0 <= h < class.len() && class[h] == x;
                assert(candidates[c][i] == candidates[n - 1][h]);
                assert(false);
            }
        }
        assert forall|c: int, x: int, y: int|
            0 <= c < n && x != y && (#[trigger] candidates[c]).contains(x) && candidates[c].contains(
                y,
            ) && entries[x].digest is Some && entries[x].digest == entries[y].digest
                implies #[trigger] joined(all, x, y) by {
            if c < m {
                assert(joined(earlier, x, y));
                let k = choose|k: int|
                    0 <= k < earlier.len() && (#[trigger] earlier[k]).contains(x)
                        && earlier[k].contains(y);
                assert(all[k] == earlier[k]);
            } else {
                assert(joined(fresh, x, y));
                let k = choose|k: int|
                    0 <= k < fresh.len() && (#[trigger] fresh[k]).contains(x) && fresh[k].contains(y);
                assert(all[earlier.len() + k] == fresh[k]);
            }
        }
    }
}

/// The stages yield the duplicate classes of the listing, in either mode.
pub proof fn lemma_found_classes(entries: Seq<EntryView>, strict: bool)
    ensures
        is_duplicate_partition(entries, strict, found_classes(entries, strict)),
{
    lemma_size_classes(entries);
    if strict {
        let candidates = size_classes(entries);
        let classes = found_classes(entries, true);
        lemma_verified_classes(entries, candidates, candidates.len());
        assert forall|i: int, j: int|
            i != j && comparable(entries, true, i) && comparable(entries, true, j) && alike(
                entries,
                true,
                i,
                j,
            ) implies #[trigger] joined(classes, i, j) by {
            assert(comparable(entries, false, i) && comparable(entries, false, j));
            assert(alike(entries, false, i, j));
            assert(joined(candidates, i, j));
            let c = choose|c: int|
                0 <= c < candidates.len() && (#[trigger] candidates[c]).contains(i)
                    && candidates[c].contains(j);
            assert(candidates[c].contains(i));
        }
    }
}

/// Ordering the classes by size keeps them the duplicate classes of the
/// listing, and puts larger files first.
pub proof fn lemma_scan_classes(entries: Seq<EntryView>, strict: bool)
    ensures
        is_duplicate_partition(entries, strict, scan_classes(entries, strict)),
        scan_classes(entries, strict).len() == found_classes(entries, strict).len(),
        forall|j: int, k: int|
            0 <= j < k < scan_classes(entries, strict).len() ==> class_size(entries)(
                #[trigger] scan_classes(entries, strict)[j],
            ) >= class_size(entries)(#[trigger] scan_classes(entries, strict)[k]),
{
    let found = found_classes(entries, strict);
    let sizes = found.map_values(class_size(entries));
    let order = descending_order(sizes);
    let classes = scan_classes(entries, strict);
    lemma_found_classes(entries, strict);
    lemma_descending_prefix(sizes, sizes.len());
    lemma_descending_order_distinct(order, sizes, sizes.len() as int);
    assert forall|k: int| 0 <= k < classes.len() implies #[trigger] classes[k] == found[order[k]]
        && 0 <= order[k] < found.len() by {}
    assert forall|g: int, a: int| 0 <= g < classes.len() && 0 <= a < classes[g].len() implies comparable(
        entries,
        strict,
        #[trigger] classes[g][a],
    ) && alike(entries, strict, classes[g][a], classes[g][0]) by {
        assert(classes[g][a] == found[order[g]][a]);
    }
    assert forall|c: int, a: int, d: int, b: int|
        0 <= c < classes.len() && 0 <= a < classes[c].len() && 0 <= d < classes.len() && 0 <= b
            < classes[d].len() && #[trigger] classes[c][a] == #[trigger] classes[d][b] implies c
        == d && a == b by {
        assert(found[order[c]][a] == found[order[d]][b]);
        assert(order[c] == order[d]);
    }
    assert forall|i: int, j: int|
        i != j && comparable(entries, strict, i) && comparable(entries, strict, j) && alike(
            entries,
            strict,
            i,
            j,
        ) implies #[trigger] joined(classes, i, j) by {
        assert(joined(found, i, j));
        let c = choose|c: int|
            0 <= c < found.len() && (#[trigger] found[c]).contains(i) && found[c].contains(j);
        assert(order.contains(c));
        let k = choose|k: int| 0 <= k < order.len() && order[k] == c;
        assert(classes[k] == found[c]);
    }
    assert forall|j: int, k: int| 0 <= j < k < classes.len() implies class_size(entries)(
        #[trigger] classes[j],
    ) >= class_size(entries)(#[trigger] classes[k]) by {
        assert(sizes[order[j]] >= sizes[order[k]]);
    }
}

/// The groups of a listing are well formed and ordered by descending size.
pub proof fn lemma_duplicate_groups_are_ordered(entries: Seq<EntryView>, strict: bool)
    ensures
        is_scan_result(duplicate_groups(entries, strict)),
{
    let classes = scan_classes(entries, strict);
    let groups = duplicate_groups(entries, strict);
    lemma_scan_classes(entries, strict);
    assert forall|g: int| 0 <= g < groups.len() implies #[trigger] groups[g] == group_record(
        entries,
        strict,
    )(classes[g]) by {}
    assert forall|g: int| 0 <= g < groups.len() implies (#[trigger] groups[g]).is_well_formed() by {
        assert(classes[g].len() >= 2);
    }
    assert forall|g: int, h: int| 0 <= g < h < groups.len() implies (#[trigger] groups[g]).size >= (
    #[trigger] groups[h]).size by {
        assert(class_size(entries)(classes[g]) >= class_size(entries)(classes[h]));
    }
}

/// The members of a class that have a digest are members with a digest.
pub proof fn lemma_hashed_members(entries: Seq<EntryView>, class: Seq<int>)
    ensures
        forall|k: int|
            0 <= k < hashed_members(entries, class).len() ==> class.contains(
                #[trigger] hashed_members(entries, class)[k],
            ) && entries[hashed_members(entries, class)[k]].digest is Some,
{
    let keep = has_digest(entries, class);
    let ps = positions_where(class.len(), keep);
    let items = hashed_members(entries, class);
    lemma_positions_where(class.len(), keep);
    assert forall|k: int| 0 <= k < items.len() implies class.contains(#[trigger] items[k])
        && entries[items[k]].digest is Some by {
        assert(keep(ps[k]));
        assert(class[ps[k]] == items[k]);
    }
}

} // verus!
