//! What the library guarantees, stated over the functions that its
//! contracts name.
//!
//! The theorems on scans speak of `duplicate_groups`, which
//! `find_duplicates` and `scan_for_duplicates` are proved to compute, and of
//! files by their paths. Those on deletions speak of `outcome_of`, and that
//! on previews of `shown_text`.

use crate::grouper::{injective, joined, lemma_flatten_holds_members, lemma_positions_where_agree};
use crate::hasher::content_digest;
use crate::lines::{first_newline, join_lines, lemma_first_newline, lines_of, strip_cr};
use crate::order::{descending_order, lemma_descending_prefix};
use crate::partition::{
    lemma_found_classes, lemma_hashed_members, lemma_scan_classes, lemma_size_classes,
    lemma_sized_files, lemma_verified_classes,
};
use crate::preview::{is_preview_step, kind_of, shown_text, PreviewStep};
use crate::stages::{
    DuplicateGroupView, EntryView, alike, class_hash, class_size, comparable, digest_candidates,
    digest_classes, digest_of, duplicate_groups, file_record, found_classes, group_record,
    has_digest, hashed_members, is_duplicate_partition, is_sized, scan_classes, size_classes,
    size_of, sized_files, verified_classes, within,
};
use crate::trash::{AttemptView, DeleteErrorView, outcome_of, outcome_of_prefix};
use vstd::prelude::*;
use vstd::utf8::{decode_utf8, valid_utf8};

verus! {

/// The group lists a file with this path.
pub open spec fn lists(group: DuplicateGroupView, path: Seq<char>) -> bool {
    exists|a: int| 0 <= a < group.files.len() && (#[trigger] group.files[a]).path == path
}

/// No two entries have the same path.
pub open spec fn distinct_paths(entries: Seq<EntryView>) -> bool {
    forall|i: int, j: int|
        0 <= i < entries.len() && 0 <= j < entries.len() && i != j ==> (#[trigger] entries[i]).path
            != (#[trigger] entries[j]).path
}

/// Group `g` of a scan lists the path of entry `i` exactly if class `g`
/// holds `i`.
pub proof fn lemma_lists_member(entries: Seq<EntryView>, strict: bool, g: int, i: int)
    requires
        distinct_paths(entries),
        0 <= g < scan_classes(entries, strict).len(),
        0 <= i < entries.len(),
    ensures
        lists(duplicate_groups(entries, strict)[g], entries[i].path) <==> scan_classes(
            entries,
            strict,
        )[g].contains(i),
{
    let classes = scan_classes(entries, strict);
    let group = duplicate_groups(entries, strict)[g];
    lemma_scan_classes(entries, strict);
    assert(group == group_record(entries, strict)(classes[g]));
    assert(group.files.len() == classes[g].len());
    assert forall|a: int| 0 <= a < classes[g].len() implies (#[trigger] group.files[a]).path
        == entries[classes[g][a]].path by {}
    if lists(group, entries[i].path) {
        let a = choose|a: int|
            0 <= a < group.files.len() && (#[trigger] group.files[a]).path == entries[i].path;
        assert(comparable(entries, strict, classes[g][a]));
        assert(classes[g][a] == i);
    }
    if classes[g].contains(i) {
        let a = choose|a: int| 0 <= a < classes[g].len() && classes[g][a] == i;
        assert(group.files[a].path == entries[i].path);
    }
}

/// Group `g` lists both paths, and no other group lists either of them.
pub open spec fn sole_group_of(
    groups: Seq<DuplicateGroupView>,
    g: int,
    first: Seq<char>,
    second: Seq<char>,
) -> bool {
    &&& 0 <= g < groups.len()
    &&& lists(groups[g], first)
    &&& lists(groups[g], second)
    &&& forall|h: int|
        0 <= h < groups.len() && (lists(#[trigger] groups[h], first) || lists(groups[h], second))
            ==> h == g
}

/// Two different files that take part in the comparison and are alike are
/// listed together in exactly one group, and that group has their size.
pub proof fn alike_files_share_one_group(entries: Seq<EntryView>, strict: bool, i: int, j: int)
    requires
        distinct_paths(entries),
        i != j,
        comparable(entries, strict, i),
        comparable(entries, strict, j),
        alike(entries, strict, i, j),
    ensures
        exists|g: int|
            #[trigger] sole_group_of(
                duplicate_groups(entries, strict),
                g,
                entries[i].path,
                entries[j].path,
            ) && duplicate_groups(entries, strict)[g].size == entries[i].size->0,
{
    let classes = scan_classes(entries, strict);
    let groups = duplicate_groups(entries, strict);
    lemma_scan_classes(entries, strict);
    assert(alike(entries, strict, i, j));
    assert(joined(classes, i, j));
    let g = choose|g: int|
        0 <= g < classes.len() && (#[trigger] classes[g]).contains(i) && classes[g].contains(j);
    lemma_lists_member(entries, strict, g, i);
    lemma_lists_member(entries, strict, g, j);
    let a = choose|a: int| 0 <= a < classes[g].len() && classes[g][a] == i;
    let b = choose|b: int| 0 <= b < classes[g].len() && classes[g][b] == j;
    assert(groups[g] == group_record(entries, strict)(classes[g]));
    assert(alike(entries, strict, classes[g][a], classes[g][0]));
    assert forall|h: int|
        0 <= h < groups.len() && (lists(#[trigger] groups[h], entries[i].path) || lists(
            groups[h],
            entries[j].path,
        )) implies h == g by {
        lemma_lists_member(entries, strict, h, i);
        lemma_lists_member(entries, strict, h, j);
        if classes[h].contains(i) {
            let c = choose|c: int| 0 <= c < classes[h].len() && classes[h][c] == i;
            assert(classes[h][c] == classes[g][a]);
        } else {
            let c = choose|c: int| 0 <= c < classes[h].len() && classes[h][c] == j;
            assert(classes[h][c] == classes[g][b]);
        }
    }
    assert(sole_group_of(groups, g, entries[i].path, entries[j].path));
}


/// Two files of equal size and equal digest are listed together in exactly
/// one group of a strict scan, and that group has their size.
///
/// Files of identical content have the same size and, where both were
/// hashed, the same digest.
pub proof fn identical_files_share_one_group(entries: Seq<EntryView>, i: int, j: int)
    requires
        distinct_paths(entries),
        i != j,
        comparable(entries, true, i),
        comparable(entries, true, j),
        entries[i].size == entries[j].size,
        entries[i].digest == entries[j].digest,
    ensures
        exists|g: int|
            #[trigger] sole_group_of(
                duplicate_groups(entries, true),
                g,
                entries[i].path,
                entries[j].path,
            ) && duplicate_groups(entries, true)[g].size == entries[i].size->0,
{
    alike_files_share_one_group(entries, true, i, j);
}

/// Two regular files of equal size are listed together in exactly one group
/// of a fast scan, whatever their content is.
pub proof fn equal_sizes_share_one_group_in_fast_mode(entries: Seq<EntryView>, i: int, j: int)
    requires
        distinct_paths(entries),
        i != j,
        comparable(entries, false, i),
        comparable(entries, false, j),
        entries[i].size == entries[j].size,
    ensures
        exists|g: int|
            #[trigger] sole_group_of(
                duplicate_groups(entries, false),
                g,
                entries[i].path,
                entries[j].path,
            ) && duplicate_groups(entries, false)[g].size == entries[i].size->0,
{
    alike_files_share_one_group(entries, false, i, j);
}

/// Two regular files of identical content, each listed with the size and
/// the digest of its content, are listed together in exactly one group of a
/// strict scan, and that group has their size.
pub proof fn identical_content_shares_one_group(
    entries: Seq<EntryView>,
    contents: Seq<Seq<u8>>,
    i: int,
    j: int,
)
    requires
        distinct_paths(entries),
        contents.len() == entries.len(),
        0 <= i < entries.len(),
        0 <= j < entries.len(),
        i != j,
        contents[i] == contents[j],
        entries[i].is_file,
        entries[j].is_file,
        entries[i].size matches Some(size) && size == contents[i].len(),
        entries[j].size matches Some(size) && size == contents[j].len(),
        entries[i].digest == Some(content_digest(contents[i])),
        entries[j].digest == Some(content_digest(contents[j])),
    ensures
        exists|g: int|
            #[trigger] sole_group_of(
                duplicate_groups(entries, true),
                g,
                entries[i].path,
                entries[j].path,
            ) && duplicate_groups(entries, true)[g].size == contents[i].len(),
{
    identical_files_share_one_group(entries, i, j);
}

/// Two files of different digests are never listed in the same group of a
/// strict scan, whatever their sizes.
pub proof fn different_content_is_kept_apart(entries: Seq<EntryView>, i: int, k: int)
    requires
        distinct_paths(entries),
        0 <= i < entries.len(),
        0 <= k < entries.len(),
        entries[i].digest != entries[k].digest,
    ensures
        forall|g: int|
            0 <= g < duplicate_groups(entries, true).len() ==> !(lists(
                #[trigger] duplicate_groups(entries, true)[g],
                entries[i].path,
            ) && lists(duplicate_groups(entries, true)[g], entries[k].path)),
{
    let classes = scan_classes(entries, true);
    let groups = duplicate_groups(entries, true);
    lemma_scan_classes(entries, true);
    assert forall|g: int| 0 <= g < groups.len() implies !(lists(
        #[trigger] groups[g],
        entries[i].path,
    ) && lists(groups[g], entries[k].path)) by {
        lemma_lists_member(entries, true, g, i);
        lemma_lists_member(entries, true, g, k);
        if classes[g].contains(i) && classes[g].contains(k) {
            let a = choose|a: int| 0 <= a < classes[g].len() && classes[g][a] == i;
            let b = choose|b: int| 0 <= b < classes[g].len() && classes[g][b] == k;
            assert(alike(entries, true, classes[g][a], classes[g][0]));
            assert(alike(entries, true, classes[g][b], classes[g][0]));
        }
    }
}

/// An entry that shares its size with no other regular file is listed in no
/// group, in either mode.
pub proof fn unique_size_is_never_listed(entries: Seq<EntryView>, strict: bool, i: int)
    requires
        distinct_paths(entries),
        0 <= i < entries.len(),
        forall|j: int|
            j != i && comparable(entries, false, j) ==> (#[trigger] entries[j]).size
                != entries[i].size,
    ensures
        forall|g: int|
            0 <= g < duplicate_groups(entries, strict).len() ==> !lists(
                #[trigger] duplicate_groups(entries, strict)[g],
                entries[i].path,
            ),
{
    let classes = scan_classes(entries, strict);
    let groups = duplicate_groups(entries, strict);
    lemma_scan_classes(entries, strict);
    assert forall|g: int| 0 <= g < groups.len() implies !lists(
        #[trigger] groups[g],
        entries[i].path,
    ) by {
        lemma_lists_member(entries, strict, g, i);
        if classes[g].contains(i) {
            let a = choose|a: int| 0 <= a < classes[g].len() && classes[g][a] == i;
            assert(classes[g].len() >= 2);
            let b = if a == 0 {
                1int
            } else {
                0int
            };
            let j = classes[g][b];
            assert(j != i) by {
                if classes[g][b] == classes[g][a] {
                    assert(injective(classes));
                    assert(b == a);
                }
            }
            assert(comparable(entries, strict, classes[g][b]));
            assert(alike(entries, strict, classes[g][a], classes[g][0]));
            assert(alike(entries, strict, classes[g][b], classes[g][0]));
            assert(entries[j].size == entries[i].size);
        }
    }
}

/// The second listing holds the entries of the first in another order:
/// `to_first` maps each position of the second listing to the position of
/// the same entry in the first, and `to_second` maps back.
pub open spec fn rearranged(
    first: Seq<EntryView>,
    second: Seq<EntryView>,
    to_first: Seq<int>,
    to_second: Seq<int>,
) -> bool {
    &&& first.len() == second.len()
    &&& to_first.len() == second.len()
    &&& to_second.len() == first.len()
    &&& forall|k: int|
        0 <= k < second.len() ==> 0 <= #[trigger] to_first[k] < first.len() && first[to_first[k]]
            == second[k] && to_second[to_first[k]] == k
    &&& forall|k: int|
        0 <= k < first.len() ==> 0 <= #[trigger] to_second[k] < second.len()
            && second[to_second[k]] == first[k] && to_first[to_second[k]] == k
}

/// The two groups have the same size and key and list the same paths.
pub open spec fn same_group(one: DuplicateGroupView, other: DuplicateGroupView) -> bool {
    &&& one.size == other.size
    &&& one.hash == other.hash
    &&& forall|path: Seq<char>| #[trigger] lists(one, path) <==> lists(other, path)
}

/// Group `g` of a scan lists `path` exactly if its class holds an entry with
/// that path.
pub proof fn lemma_lists_some_member(
    entries: Seq<EntryView>,
    strict: bool,
    g: int,
    path: Seq<char>,
)
    requires
        0 <= g < scan_classes(entries, strict).len(),
    ensures
        lists(duplicate_groups(entries, strict)[g], path) <==> exists|a: int|
            0 <= a < scan_classes(entries, strict)[g].len() && entries[#[trigger] scan_classes(
                entries,
                strict,
            )[g][a]].path == path,
{
    let class = scan_classes(entries, strict)[g];
    let group = duplicate_groups(entries, strict)[g];
    assert(group == group_record(entries, strict)(class));
    assert(group.files.len() == class.len());
    assert forall|a: int| 0 <= a < class.len() implies (#[trigger] group.files[a]).path
        == entries[class[a]].path by {}
    if lists(group, path) {
        let a = choose|a: int| 0 <= a < group.files.len() && (#[trigger] group.files[a]).path == path;
        assert(entries[class[a]].path == path);
    }
    if exists|a: int| 0 <= a < class.len() && entries[#[trigger] class[a]].path == path {
        let a = choose|a: int| 0 <= a < class.len() && entries[#[trigger] class[a]].path == path;
        assert(group.files[a].path == path);
    }
}

/// The paths of one class of the first listing are listed by the class of
/// the second listing that holds the same entries.
proof fn lemma_members_carry_over(
    first: Seq<EntryView>,
    second: Seq<EntryView>,
    to_first: Seq<int>,
    to_second: Seq<int>,
    strict: bool,
    g: int,
    h: int,
    x: int,
)
    requires
        rearranged(first, second, to_first, to_second),
        is_duplicate_partition(first, strict, scan_classes(first, strict)),
        is_duplicate_partition(second, strict, scan_classes(second, strict)),
        0 <= g < scan_classes(first, strict).len(),
        0 <= h < scan_classes(second, strict).len(),
        scan_classes(second, strict)[h].contains(to_second[scan_classes(first, strict)[g][0]]),
        scan_classes(first, strict)[g].contains(x),
    ensures
        scan_classes(second, strict)[h].contains(to_second[x]),
{
    let one = scan_classes(first, strict);
    let two = scan_classes(second, strict);
    let head = one[g][0];
    let a = choose|a: int| 0 <= a < one[g].len() && one[g][a] == x;
    assert(one[g].len() >= 2);
    assert(comparable(first, strict, one[g][a]));
    assert(comparable(first, strict, one[g][0]));
    assert(alike(first, strict, one[g][a], one[g][0]));
    if x != head {
        let y = to_second[x];
        let z = to_second[head];
        assert(comparable(second, strict, y));
        assert(comparable(second, strict, z));
        assert(alike(second, strict, y, z));
        assert(joined(two, y, z));
        let k = choose|k: int|
            0 <= k < two.len() && (#[trigger] two[k]).contains(y) && two[k].contains(z);
        let b = choose|b: int| 0 <= b < two[k].len() && two[k][b] == z;
        let c = choose|c: int| 0 <= c < two[h].len() && two[h][c] == z;
        assert(two[k][b] == two[h][c]);
    }
}

/// The order in which a directory lists its entries does not change what a
/// scan finds: for every group of the scan of one listing, the scan of a
/// rearranged listing has a group of the same size and key that lists the
/// same paths.
pub proof fn listing_order_does_not_change_the_groups(
    first: Seq<EntryView>,
    second: Seq<EntryView>,
    to_first: Seq<int>,
    to_second: Seq<int>,
    strict: bool,
    g: int,
)
    requires
        rearranged(first, second, to_first, to_second),
        0 <= g < duplicate_groups(first, strict).len(),
    ensures
        exists|h: int|
            0 <= h < duplicate_groups(second, strict).len() && same_group(
                duplicate_groups(first, strict)[g],
                #[trigger] duplicate_groups(second, strict)[h],
            ),
{
    let one = scan_classes(first, strict);
    let two = scan_classes(second, strict);
    lemma_scan_classes(first, strict);
    lemma_scan_classes(second, strict);
    let head = one[g][0];
    let next = one[g][1];
    assert(one[g].len() >= 2);
    assert(comparable(first, strict, one[g][0]));
    assert(comparable(first, strict, one[g][1]));
    assert(alike(first, strict, one[g][1], one[g][0]));
    assert(head != next) by {
        if one[g][0] == one[g][1] {
            assert(injective(one));
        }
    }
    let y = to_second[head];
    let z = to_second[next];
    assert(comparable(second, strict, y));
    assert(comparable(second, strict, z));
    assert(alike(second, strict, z, y));
    assert(joined(two, z, y));
    let h = choose|h: int|
        0 <= h < two.len() && (#[trigger] two[h]).contains(z) && two[h].contains(y);
    let c = choose|c: int| 0 <= c < two[h].len() && two[h][c] == y;
    assert(comparable(second, strict, two[h][c]));
    assert(comparable(second, strict, two[h][0]));
    assert(alike(second, strict, two[h][c], two[h][0]));
    let back = two[h][0];
    assert(one[g].contains(to_first[back])) by {
        assert(one[g][0] == to_first[y]);
        if back != y {
            let w = to_first[back];
            assert(comparable(first, strict, w));
            assert(alike(first, strict, w, head));
            assert(joined(one, w, head));
            let k = choose|k: int|
                0 <= k < one.len() && (#[trigger] one[k]).contains(w) && one[k].contains(head);
            let b = choose|b: int| 0 <= b < one[k].len() && one[k][b] == head;
            assert(one[k][b] == one[g][0]);
        }
    }
    let groups_one = duplicate_groups(first, strict);
    let groups_two = duplicate_groups(second, strict);
    assert(groups_one[g] == group_record(first, strict)(one[g]));
    assert(groups_two[h] == group_record(second, strict)(two[h]));
    assert(second[y] == first[head]);
    assert forall|path: Seq<char>| #[trigger] lists(groups_one[g], path) <==> lists(
        groups_two[h],
        path,
    ) by {
        lemma_lists_some_member(first, strict, g, path);
        lemma_lists_some_member(second, strict, h, path);
        if lists(groups_one[g], path) {
            let a = choose|a: int| 0 <= a < one[g].len() && first[#[trigger] one[g][a]].path == path;
            let x = one[g][a];
            assert(comparable(first, strict, x));
            lemma_members_carry_over(first, second, to_first, to_second, strict, g, h, x);
            let b = choose|b: int| 0 <= b < two[h].len() && two[h][b] == to_second[x];
            assert(second[two[h][b]].path == path);
        }
        if lists(groups_two[h], path) {
            let b = choose|b: int|
                0 <= b < two[h].len() && second[#[trigger] two[h][b]].path == path;
            let v = two[h][b];
            assert(comparable(second, strict, v));
            assert(rearranged(second, first, to_second, to_first));
            lemma_members_carry_over(second, first, to_second, to_first, strict, h, g, v);
            let a = choose|a: int| 0 <= a < one[g].len() && one[g][a] == to_first[v];
            assert(first[one[g][a]].path == path);
        }
    }
    assert(same_group(groups_one[g], groups_two[h]));
}

/// The two listings name the same entries with the same kinds and sizes;
/// they may differ in the digests.
pub open spec fn same_files(first: Seq<EntryView>, second: Seq<EntryView>) -> bool {
    &&& first.len() == second.len()
    &&& forall|i: int|
        #![trigger first[i]]
        #![trigger second[i]]
        0 <= i < first.len() ==> {
            &&& second[i].path == first[i].path
            &&& second[i].name == first[i].name
            &&& second[i].extension == first[i].extension
            &&& second[i].is_file == first[i].is_file
            &&& second[i].size == first[i].size
        }
}

/// Stage one does not read digests.
pub proof fn lemma_size_classes_ignore_digests(first: Seq<EntryView>, second: Seq<EntryView>)
    requires
        same_files(first, second),
    ensures
        size_classes(first) == size_classes(second),
{
    assert forall|i: int| 0 <= i < first.len() implies #[trigger] is_sized(first)(i) == is_sized(
        second,
    )(i) by {
        assert(second[i].size == first[i].size);
    }
    lemma_positions_where_agree(first.len(), is_sized(first), is_sized(second));
    let items = sized_files(first);
    lemma_sized_files(first);
    assert(items.map_values(size_of(first)) =~= items.map_values(size_of(second))) by {
        assert forall|k: int| 0 <= k < items.len() implies size_of(first)(items[k]) == size_of(
            second,
        )(items[k]) by {
            assert(comparable(first, false, items[k]));
            assert(second[items[k]].size == first[items[k]].size);
        }
    }
}

/// Stage two on one class reads the digests of its members only.
pub proof fn lemma_digest_classes_agree(
    first: Seq<EntryView>,
    second: Seq<EntryView>,
    class: Seq<int>,
)
    requires
        forall|a: int|
            0 <= a < class.len() ==> second[#[trigger] class[a]].digest == first[class[a]].digest,
    ensures
        digest_classes(first, class) == digest_classes(second, class),
{
    assert forall|a: int| 0 <= a < class.len() implies #[trigger] has_digest(first, class)(a)
        == has_digest(second, class)(a) by {
        assert(second[class[a]].digest == first[class[a]].digest);
    }
    lemma_positions_where_agree(class.len(), has_digest(first, class), has_digest(second, class));
    let items = hashed_members(first, class);
    lemma_hashed_members(first, class);
    assert(items.map_values(digest_of(first)) =~= items.map_values(digest_of(second))) by {
        assert forall|k: int| 0 <= k < items.len() implies digest_of(first)(items[k]) == digest_of(
            second,
        )(items[k]) by {
            assert(class.contains(items[k]));
            let a = choose|a: int| 0 <= a < class.len() && class[a] == items[k];
            assert(second[class[a]].digest == first[class[a]].digest);
        }
    }
}

/// Stage two reads the digests of the members of the candidates only.
pub proof fn lemma_verified_classes_agree(
    first: Seq<EntryView>,
    second: Seq<EntryView>,
    candidates: Seq<Seq<int>>,
    n: nat,
)
    requires
        n <= candidates.len(),
        forall|c: int, a: int|
            0 <= c < candidates.len() && 0 <= a < candidates[c].len() ==> second[#[trigger] candidates[c][a]].digest
                == first[candidates[c][a]].digest,
    ensures
        verified_classes(first, candidates, n) == verified_classes(second, candidates, n),
    decreases n,
{
    if n > 0 {
        lemma_verified_classes_agree(first, second, candidates, (n - 1) as nat);
        let class = candidates[n - 1];
        assert forall|a: int| 0 <= a < class.len() implies second[#[trigger] class[a]].digest
            == first[class[a]].digest by {
            assert(class[a] == candidates[n - 1][a]);
        }
        lemma_digest_classes_agree(first, second, class);
    }
}

/// A scan reads no digest but those of the entries that `hash_candidates`
/// names: two listings of the same files that agree on the digests of
/// those entries have the same groups. In fast mode no digest is read.
pub proof fn only_candidates_need_digests(
    first: Seq<EntryView>,
    second: Seq<EntryView>,
    strict: bool,
)
    requires
        same_files(first, second),
        forall|i: int|
            digest_candidates(first, strict).contains(i) ==> (#[trigger] second[i]).digest
                == first[i].digest,
    ensures
        digest_candidates(first, strict) == digest_candidates(second, strict),
        duplicate_groups(first, strict) == duplicate_groups(second, strict),
{
    let candidates = size_classes(first);
    lemma_size_classes_ignore_digests(first, second);
    lemma_size_classes(first);
    if strict {
        assert forall|c: int, a: int|
            0 <= c < candidates.len() && 0 <= a < candidates[c].len() implies second[#[trigger] candidates[c][a]].digest
            == first[candidates[c][a]].digest by {
            lemma_flatten_holds_members(candidates, c, a);
        }
        lemma_verified_classes_agree(first, second, candidates, candidates.len());
        lemma_verified_classes(first, candidates, candidates.len());
    }
    let found = found_classes(first, strict);
    assert(found == found_classes(second, strict));
    lemma_found_classes(first, strict);
    assert forall|g: int, a: int| 0 <= g < found.len() && 0 <= a < found[g].len() implies 0
        <= #[trigger] found[g][a] < first.len() && (strict ==> second[found[g][a]].digest
        == first[found[g][a]].digest) by {
        assert(comparable(first, strict, found[g][a]));
        if strict {
            let x = found[g][a];
            assert(within(candidates, candidates.len() as int, x));
            let c = choose|c: int|
                0 <= c < candidates.len() && (#[trigger] candidates[c]).contains(x);
            let b = choose|b: int| 0 <= b < candidates[c].len() && candidates[c][b] == x;
            assert(second[candidates[c][b]].digest == first[candidates[c][b]].digest);
        }
    }
    assert(found.map_values(class_size(first)) =~= found.map_values(class_size(second))) by {
        assert forall|g: int| 0 <= g < found.len() implies class_size(first)(found[g])
            == class_size(second)(found[g]) by {
            assert(found[g].len() >= 2);
            assert(0 <= found[g][0] < first.len());
            assert(second[found[g][0]].size == first[found[g][0]].size);
        }
    }
    let sizes = found.map_values(class_size(first));
    let order = descending_order(sizes);
    lemma_descending_prefix(sizes, sizes.len());
    let classes = scan_classes(first, strict);
    assert(classes == scan_classes(second, strict));
    let one = duplicate_groups(first, strict);
    let two = duplicate_groups(second, strict);
    assert forall|g: int| 0 <= g < classes.len() implies #[trigger] one[g] == two[g] by {
        let class = classes[g];
        assert(class == found[order[g]]);
        assert(0 <= order[g] < found.len());
        assert(class.len() >= 2);
        assert(0 <= found[order[g]][0] < first.len());
        assert(second[class[0]].size == first[class[0]].size);
        assert(class_size(first)(class) == class_size(second)(class));
        assert(class_hash(first, strict, class) == class_hash(second, strict, class)) by {
            if strict {
                assert(second[found[order[g]][0]].digest == first[found[order[g]][0]].digest);
            }
        }
        let size = class_size(first)(class);
        let hash = class_hash(first, strict, class);
        assert(class.map_values(file_record(first, size, hash)) =~= class.map_values(
            file_record(second, size, hash),
        )) by {
            assert forall|a: int| 0 <= a < class.len() implies file_record(first, size, hash)(
                class[a],
            ) == file_record(second, size, hash)(class[a]) by {
                assert(0 <= found[order[g]][a] < first.len());
                assert(second[class[a]].path == first[class[a]].path);
            }
        }
        assert(one[g] == group_record(first, strict)(class));
        assert(two[g] == group_record(second, strict)(class));
    }
    assert(one =~= two);
}

/// A scan is a function of the listing and the mode: two scans of the same
/// listing in the same mode return the same groups, in the same order and
/// with the same files.
pub proof fn rescan_returns_the_same_groups(
    entries: Seq<EntryView>,
    strict: bool,
    first: Seq<DuplicateGroupView>,
    second: Seq<DuplicateGroupView>,
)
    requires
        first == duplicate_groups(entries, strict),
        second == duplicate_groups(entries, strict),
    ensures
        first == second,
{
}

/// The paths of the attempts.
pub open spec fn attempted_paths(attempts: Seq<AttemptView>) -> Seq<Seq<char>> {
    attempts.map_values(|attempt: AttemptView| attempt.path)
}

/// The paths of the failures.
pub open spec fn failed_paths(failures: Seq<DeleteErrorView>) -> Seq<Seq<char>> {
    failures.map_values(|failure: DeleteErrorView| failure.path)
}

/// One of the first `n` attempts, successful or not as `trashed` says, was
/// made on `path`.
pub open spec fn was_attempted(
    attempts: Seq<AttemptView>,
    n: int,
    trashed: bool,
    path: Seq<char>,
) -> bool {
    exists|k: int|
        0 <= k < n && ((#[trigger] attempts[k]).outcome is Trashed) == trashed && attempts[k].path
            == path
}

/// The outcome of the first `n` attempts files each of their paths, and
/// nothing else; a path of a successful attempt is among the deleted ones
/// and a path of another attempt among the failures.
pub proof fn lemma_outcome_of_prefix(attempts: Seq<AttemptView>, n: nat)
    requires
        n <= attempts.len(),
    ensures
        outcome_of_prefix(attempts, n).deleted.len() + outcome_of_prefix(attempts, n).failed.len()
            == n,
        forall|k: int|
            0 <= k < n ==> if (#[trigger] attempts[k]).outcome is Trashed {
                outcome_of_prefix(attempts, n).deleted.contains(attempts[k].path)
            } else {
                failed_paths(outcome_of_prefix(attempts, n).failed).contains(attempts[k].path)
            },
        forall|d: int|
            0 <= d < outcome_of_prefix(attempts, n).deleted.len() ==> was_attempted(
                attempts,
                n as int,
                true,
                #[trigger] outcome_of_prefix(attempts, n).deleted[d],
            ),
        forall|f: int|
            0 <= f < outcome_of_prefix(attempts, n).failed.len() ==> was_attempted(
                attempts,
                n as int,
                false,
                (#[trigger] outcome_of_prefix(attempts, n).failed[f]).path,
            ),
    decreases n,
{
    if n > 0 {
        let m = (n - 1) as nat;
        let before = outcome_of_prefix(attempts, m);
        let after = outcome_of_prefix(attempts, n);
        let last = attempts[n - 1];
        lemma_outcome_of_prefix(attempts, m);
        assert forall|k: int| 0 <= k < n implies if (#[trigger] attempts[k]).outcome is Trashed {
            after.deleted.contains(attempts[k].path)
        } else {
            failed_paths(after.failed).contains(attempts[k].path)
        } by {
            if k == n - 1 {
                if last.outcome is Trashed {
                    assert(after.deleted[before.deleted.len() as int] == last.path);
                } else {
                    assert(failed_paths(after.failed)[before.failed.len() as int] == last.path);
                }
            } else if attempts[k].outcome is Trashed {
                let d = choose|d: int|
                    0 <= d < before.deleted.len() && before.deleted[d] == attempts[k].path;
                assert(after.deleted[d] == attempts[k].path);
            } else {
                let paths = failed_paths(before.failed);
                let f = choose|f: int| 0 <= f < paths.len() && paths[f] == attempts[k].path;
                assert(failed_paths(after.failed)[f] == attempts[k].path);
            }
        }
        assert forall|d: int| 0 <= d < after.deleted.len() implies was_attempted(
            attempts,
            n as int,
            true,
            #[trigger] after.deleted[d],
        ) by {
            if d < before.deleted.len() {
                assert(after.deleted[d] == before.deleted[d]);
                assert(was_attempted(attempts, m as int, true, before.deleted[d]));
                let k = choose|k: int|
                    0 <= k < m && ((#[trigger] attempts[k]).outcome is Trashed) == true
                        && attempts[k].path == before.deleted[d];
                assert(attempts[k].path == after.deleted[d]);
            } else {
                assert(attempts[n - 1].path == after.deleted[d]);
            }
        }
        assert forall|f: int| 0 <= f < after.failed.len() implies was_attempted(
            attempts,
            n as int,
            false,
            (#[trigger] after.failed[f]).path,
        ) by {
            if f < before.failed.len() {
                assert(after.failed[f] == before.failed[f]);
                assert(was_attempted(attempts, m as int, false, before.failed[f].path));
                let k = choose|k: int|
                    0 <= k < m && ((#[trigger] attempts[k]).outcome is Trashed) == false
                        && attempts[k].path == before.failed[f].path;
                assert(attempts[k].path == after.failed[f].path);
            } else {
                assert(attempts[n - 1].path == after.failed[f].path);
            }
        }
    }
}

/// No path of the batch has both an attempt that put it in the trash and
/// an attempt that did not.
pub open spec fn has_one_outcome_per_path(attempts: Seq<AttemptView>) -> bool {
    forall|k: int, l: int|
        0 <= k < attempts.len() && 0 <= l < attempts.len() && (#[trigger] attempts[k]).outcome is Trashed
            && !((#[trigger] attempts[l]).outcome is Trashed) ==> attempts[k].path
            != attempts[l].path
}

/// Every path of a batch is reported, as deleted or as failed, and nothing
/// else is reported. No path is reported both as deleted and as failed,
/// unless the batch names it twice and put it in the trash only once; a
/// batch that names no path twice is never such a batch.
pub proof fn every_path_has_one_outcome(attempts: Seq<AttemptView>)
    ensures
        outcome_of(attempts).deleted.len() + outcome_of(attempts).failed.len() == attempts.len(),
        outcome_of(attempts).deleted.to_set().union(
            failed_paths(outcome_of(attempts).failed).to_set(),
        ) == attempted_paths(attempts).to_set(),
        has_one_outcome_per_path(attempts) <==> outcome_of(attempts).deleted.to_set().disjoint(
            failed_paths(outcome_of(attempts).failed).to_set(),
        ),
        attempted_paths(attempts).no_duplicates() ==> has_one_outcome_per_path(attempts),
{
    let outcome = outcome_of(attempts);
    let deleted = outcome.deleted;
    let failed = failed_paths(outcome.failed);
    let paths = attempted_paths(attempts);
    lemma_outcome_of_prefix(attempts, attempts.len());
    assert forall|p: Seq<char>| deleted.to_set().union(failed.to_set()).contains(p)
        <==> paths.to_set().contains(p) by {
        if deleted.contains(p) {
            let d = choose|d: int| 0 <= d < deleted.len() && deleted[d] == p;
            assert(was_attempted(attempts, attempts.len() as int, true, deleted[d]));
            let k = choose|k: int|
                0 <= k < attempts.len() && ((#[trigger] attempts[k]).outcome is Trashed) == true
                    && attempts[k].path == deleted[d];
            assert(paths[k] == p);
        }
        if failed.contains(p) {
            let f = choose|f: int| 0 <= f < failed.len() && failed[f] == p;
            assert(was_attempted(attempts, attempts.len() as int, false, outcome.failed[f].path));
            let k = choose|k: int|
                0 <= k < attempts.len() && ((#[trigger] attempts[k]).outcome is Trashed) == false
                    && attempts[k].path == outcome.failed[f].path;
            assert(paths[k] == p);
        }
        if paths.contains(p) {
            let k = choose|k: int| 0 <= k < paths.len() && paths[k] == p;
            assert(attempts[k].path == p);
        }
    }
    assert(deleted.to_set().union(failed.to_set()) =~= paths.to_set());
    if has_one_outcome_per_path(attempts) {
        assert forall|p: Seq<char>| !(deleted.to_set().contains(p) && failed.to_set().contains(
            p,
        )) by {
            if deleted.contains(p) && failed.contains(p) {
                let d = choose|d: int| 0 <= d < deleted.len() && deleted[d] == p;
                let f = choose|f: int| 0 <= f < failed.len() && failed[f] == p;
                assert(was_attempted(attempts, attempts.len() as int, true, deleted[d]));
                assert(was_attempted(attempts, attempts.len() as int, false, outcome.failed[f].path));
                let k = choose|k: int|
                    0 <= k < attempts.len() && ((#[trigger] attempts[k]).outcome is Trashed) == true
                        && attempts[k].path == deleted[d];
                let l = choose|l: int|
                    0 <= l < attempts.len() && ((#[trigger] attempts[l]).outcome is Trashed)
                        == false && attempts[l].path == outcome.failed[f].path;
                assert(attempts[k].path == attempts[l].path);
            }
        }
    }
    if deleted.to_set().disjoint(failed.to_set()) {
        assert forall|k: int, l: int|
            0 <= k < attempts.len() && 0 <= l < attempts.len() && (#[trigger] attempts[k]).outcome is Trashed
                && !((#[trigger] attempts[l]).outcome is Trashed) implies attempts[k].path
            != attempts[l].path by {
            if attempts[k].path == attempts[l].path {
                let p = attempts[k].path;
                assert(deleted.contains(attempts[k].path));
                assert(failed.contains(attempts[l].path));
                assert(deleted.to_set().contains(p) && failed.to_set().contains(p));
            }
        }
    }
    if paths.no_duplicates() {
        assert forall|k: int, l: int|
            0 <= k < attempts.len() && 0 <= l < attempts.len() && (#[trigger] attempts[k]).outcome is Trashed
                && !((#[trigger] attempts[l]).outcome is Trashed) implies attempts[k].path
            != attempts[l].path by {
            assert(k != l);
            assert(paths[k] == attempts[k].path);
            assert(paths[l] == attempts[l].path);
        }
    }
}

/// No line feed of the text stands directly behind a carriage return.
pub open spec fn has_no_crlf(text: Seq<char>) -> bool {
    forall|i: int| 0 < i < text.len() && #[trigger] text[i] == '\n' ==> text[i - 1] != '\r'
}

/// Joining a line in front of one or more lines puts it, and a line feed,
/// before their join.
pub proof fn lemma_join_first_line(line: Seq<char>, rest: Seq<Seq<char>>)
    requires
        rest.len() > 0,
    ensures
        join_lines(seq![line] + rest) == line + seq!['\n'] + join_lines(rest),
    decreases rest.len(),
{
    let all = seq![line] + rest;
    assert(all.drop_last() =~= seq![line] + rest.drop_last());
    assert(all.last() == rest.last());
    if rest.len() == 1 {
        assert(all.drop_last() =~= seq![line]);
        assert(join_lines(all.drop_last()) == line);
        assert(join_lines(rest) == rest[0]);
    } else {
        lemma_join_first_line(line, rest.drop_last());
        assert(join_lines(all) =~= line + seq!['\n'] + join_lines(rest));
    }
}

/// A text without a carriage return before a line feed, and without a line
/// feed at its end, is the join of its lines.
pub proof fn lemma_join_of_lines(text: Seq<char>)
    requires
        has_no_crlf(text),
        text.len() > 0 ==> text.last() != '\n',
    ensures
        join_lines(lines_of(text)) == text,
        text.len() > 0 ==> lines_of(text).len() > 0,
    decreases text.len(),
{
    if text.len() > 0 {
        let end = first_newline(text, 0);
        lemma_first_newline(text, 0);
        if end < text.len() {
            let line = text.subrange(0, end);
            let rest = text.subrange(end + 1, text.len() as int);
            assert(end < text.len() - 1);
            assert(strip_cr(line) == line) by {
                if line.len() > 0 {
                    assert(line.last() == text[end - 1]);
                }
            }
            assert forall|i: int| 0 < i < rest.len() && #[trigger] rest[i] == '\n' implies rest[i
                - 1] != '\r' by {
                assert(text[end + 1 + i] == '\n');
                assert(rest[i - 1] == text[end + i]);
            }
            assert(rest.last() == text.last());
            lemma_join_of_lines(rest);
            lemma_join_first_line(line, lines_of(rest));
            assert(line + seq!['\n'] + rest =~= text);
        }
    }
}

/// A text of at most twenty lines, without a carriage return before a line
/// feed and without a line feed at its end, is shown whole. A text of more
/// lines is shown as its first twenty lines, joined by line feeds.
pub proof fn preview_shows_the_first_lines(text: Seq<char>)
    ensures
        lines_of(text).len() <= 20 && has_no_crlf(text) && (text.len() > 0 ==> text.last() != '\n')
            ==> shown_text(text) == text,
        lines_of(text).len() > 20 ==> shown_text(text) == join_lines(lines_of(text).take(20)),
{
    if lines_of(text).len() <= 20 && has_no_crlf(text) && (text.len() > 0 ==> text.last() != '\n') {
        lemma_join_of_lines(text);
    }
}

/// The preview that is decided for an existing text file, once its content
/// was read and is valid UTF-8, is a text preview of the file. A text of
/// more than twenty lines is shown as exactly its first twenty lines, joined
/// by line feeds; a text of at most twenty lines, without a carriage return
/// before a line feed and without a line feed at its end, is shown whole.
/// No bound on the length of the content is asked.
pub proof fn text_files_are_shown_by_their_first_lines(
    step: PreviewStep,
    file_path: Seq<char>,
    extension: Seq<char>,
    data: Vec<u8>,
)
    requires
        kind_of(extension) is Text,
        valid_utf8(data@),
        is_preview_step(step, file_path, extension, true, Some(Ok(data))),
    ensures
        step matches PreviewStep::Done(Ok(preview)) && {
            let text = decode_utf8(data@);
            &&& preview@.preview_type == "text"@
            &&& preview@.file_path == file_path
            &&& preview@.content == shown_text(text)
            &&& lines_of(text).len() > 20 ==> preview@.content == join_lines(
                lines_of(text).take(20),
            )
            &&& lines_of(text).len() <= 20 && has_no_crlf(text) && (text.len() > 0 ==> text.last()
                != '\n') ==> preview@.content == text
        },
{
    preview_shows_the_first_lines(decode_utf8(data@));
}

} // verus!
