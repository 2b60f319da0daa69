//! The stages of a scan as mathematical functions of the listing.
//!
//! A class is a sequence of indices into the listing. Stage one groups the
//! regular files of known size by size; stage two, in strict mode, groups
//! the members of each shared size by digest. The classes that are left
//! are ordered by descending size and become the groups of the result.

use crate::grouper::{group_by, injective, joined, positions_where, select, shared};
use crate::order::descending_order;
use crate::text::decimal_digits;
use vstd::prelude::*;

verus! {

/// The mathematical value of a `ListedEntry`.
pub ghost struct EntryView {
    pub path: Seq<char>,
    pub name: Seq<char>,
    pub extension: Seq<char>,
    pub is_file: bool,
    pub size: Option<u64>,
    pub digest: Option<Seq<char>>,
}

/// Entry `i` is a regular file of known size.
pub open spec fn is_sized(entries: Seq<EntryView>) -> spec_fn(int) -> bool {
    |i: int| entries[i].is_file && entries[i].size is Some
}

/// The size of entry `i`.
pub open spec fn size_of(entries: Seq<EntryView>) -> spec_fn(int) -> u64 {
    |i: int| entries[i].size->0
}

/// The digest of entry `i`.
pub open spec fn digest_of(entries: Seq<EntryView>) -> spec_fn(int) -> Seq<char> {
    |i: int| entries[i].digest->0
}

/// Member `a` of `class` has a digest.
pub open spec fn has_digest(entries: Seq<EntryView>, class: Seq<int>) -> spec_fn(int) -> bool {
    |a: int| entries[class[a]].digest is Some
}

/// The entries that are regular files of known size, in listing order.
pub open spec fn sized_files(entries: Seq<EntryView>) -> Seq<int> {
    positions_where(entries.len(), is_sized(entries))
}

/// Stage one: the classes of two or more files of equal size.
pub open spec fn size_classes(entries: Seq<EntryView>) -> Seq<Seq<int>> {
    shared(group_by(sized_files(entries), size_of(entries)))
}

/// The members of `class` that have a digest, in their order.
pub open spec fn hashed_members(entries: Seq<EntryView>, class: Seq<int>) -> Seq<int> {
    select(class, positions_where(class.len(), has_digest(entries, class)))
}

/// Stage two on one size class: the classes of two or more members of
/// equal digest.
pub open spec fn digest_classes(entries: Seq<EntryView>, class: Seq<int>) -> Seq<Seq<int>> {
    shared(group_by(hashed_members(entries, class), digest_of(entries)))
}

/// The digest classes of the first `n` candidates, one candidate after the
/// other.
pub open spec fn verified_classes(
    entries: Seq<EntryView>,
    candidates: Seq<Seq<int>>,
    n: nat,
) -> Seq<Seq<int>>
    decreases n,
{
    if n == 0 {
        Seq::empty()
    } else {
        verified_classes(entries, candidates, (n - 1) as nat) + digest_classes(
            entries,
            candidates[n - 1],
        )
    }
}

/// The duplicate classes in the order in which the stages produce them.
pub open spec fn found_classes(entries: Seq<EntryView>, strict: bool) -> Seq<Seq<int>> {
    if strict {
        verified_classes(entries, size_classes(entries), size_classes(entries).len())
    } else {
        size_classes(entries)
    }
}

/// The size that the members of `class` share.
pub open spec fn class_size(entries: Seq<EntryView>) -> spec_fn(Seq<int>) -> u64 {
    |class: Seq<int>| entries[class[0]].size->0
}

/// The duplicate classes of a listing, larger files first; each class lists
/// indices into the listing.
pub open spec fn scan_classes(entries: Seq<EntryView>, strict: bool) -> Seq<Seq<int>> {
    let found = found_classes(entries, strict);
    select(found, descending_order(found.map_values(class_size(entries))))
}

/// Entry `i` takes part in the comparison: it is a regular file of known
/// size and, in strict mode, of known digest.
pub open spec fn comparable(entries: Seq<EntryView>, strict: bool, i: int) -> bool {
    &&& 0 <= i < entries.len()
    &&& entries[i].is_file
    &&& entries[i].size is Some
    &&& strict ==> entries[i].digest is Some
}

/// Entries `i` and `j` count as duplicates of each other: equal size and,
/// in strict mode, equal digest.
pub open spec fn alike(entries: Seq<EntryView>, strict: bool, i: int, j: int) -> bool {
    &&& entries[i].size == entries[j].size
    &&& strict ==> entries[i].digest == entries[j].digest
}

/// `classes` are the duplicate classes of the listing: each has two or more
/// members, its members take part in the comparison and are alike, no entry
/// is a member twice, and two different entries that are alike share a
/// class.
pub open spec fn is_duplicate_partition(
    entries: Seq<EntryView>,
    strict: bool,
    classes: Seq<Seq<int>>,
) -> bool {
    &&& forall|g: int| 0 <= g < classes.len() ==> (#[trigger] classes[g]).len() >= 2
    &&& forall|g: int, a: int|
        0 <= g < classes.len() && 0 <= a < classes[g].len() ==> comparable(
            entries,
            strict,
            #[trigger] classes[g][a],
        ) && alike(entries, strict, classes[g][a], classes[g][0])
    &&& injective(classes)
    &&& forall|i: int, j: int|
        i != j && comparable(entries, strict, i) && comparable(entries, strict, j) && alike(
            entries,
            strict,
            i,
            j,
        ) ==> #[trigger] joined(classes, i, j)
}

/// Some of the first `n` candidates holds `x`.
pub open spec fn within(candidates: Seq<Seq<int>>, n: int, x: int) -> bool {
    exists|c: int| 0 <= c < n && (#[trigger] candidates[c]).contains(x)
}

/// The mathematical value of a `FileInfo`.
pub ghost struct FileInfoView {
    pub path: Seq<char>,
    pub name: Seq<char>,
    pub size: u64,
    pub hash: Seq<char>,
    pub extension: Seq<char>,
}

/// The mathematical value of a `DuplicateGroup`.
pub ghost struct DuplicateGroupView {
    pub hash: Seq<char>,
    pub size: u64,
    pub files: Seq<FileInfoView>,
}

/// The key of a class: the digest of its members in strict mode, and in
/// fast mode the token `size_` followed by their size in decimal.
pub open spec fn class_hash(entries: Seq<EntryView>, strict: bool, class: Seq<int>) -> Seq<char> {
    if strict {
        entries[class[0]].digest->0
    } else {
        "size_"@ + decimal_digits(class_size(entries)(class) as nat)
    }
}

/// The record of entry `i` as a member of a group of the given size and
/// key.
pub open spec fn file_record(entries: Seq<EntryView>, size: u64, hash: Seq<char>) -> spec_fn(
    int,
) -> FileInfoView {
    |i: int|
        FileInfoView {
            path: entries[i].path,
            name: entries[i].name,
            size: size,
            hash: hash,
            extension: entries[i].extension,
        }
}

/// The group that a class of entries becomes.
pub open spec fn group_record(entries: Seq<EntryView>, strict: bool) -> spec_fn(
    Seq<int>,
) -> DuplicateGroupView {
    |class: Seq<int>|
        DuplicateGroupView {
            hash: class_hash(entries, strict, class),
            size: class_size(entries)(class),
            files: class.map_values(
                file_record(entries, class_size(entries)(class), class_hash(entries, strict, class)),
            ),
        }
}

/// The groups of duplicates of a listing, larger files first.
pub open spec fn duplicate_groups(entries: Seq<EntryView>, strict: bool) -> Seq<
    DuplicateGroupView,
> {
    scan_classes(entries, strict).map_values(group_record(entries, strict))
}

impl DuplicateGroupView {
    /// A group holds two or more files, each of the group's size and with
    /// the group's key as its hash.
    pub open spec fn is_well_formed(self) -> bool {
        &&& self.files.len() >= 2
        &&& forall|a: int|
            0 <= a < self.files.len() ==> (#[trigger] self.files[a]).size == self.size
                && self.files[a].hash == self.hash
    }
}

/// Every group is well formed, and groups of larger files come first.
pub open spec fn is_scan_result(groups: Seq<DuplicateGroupView>) -> bool {
    &&& forall|g: int| 0 <= g < groups.len() ==> (#[trigger] groups[g]).is_well_formed()
    &&& forall|g: int, h: int|
        0 <= g < h < groups.len() ==> (#[trigger] groups[g]).size >= (#[trigger] groups[h]).size
}

/// The mode `strict` asks for verification by digest; every other mode is
/// the fast one, which compares sizes only.
pub open spec fn is_strict(mode: Seq<char>) -> bool {
    mode == "strict"@
}

/// The entries whose digest a scan will read: in strict mode the members of
/// the size classes, class by class, and none in fast mode.
pub open spec fn digest_candidates(entries: Seq<EntryView>, strict: bool) -> Seq<int> {
    if strict {
        size_classes(entries).flatten()
    } else {
        Seq::empty()
    }
}

} // verus!
