//! The scan pipeline: from a directory listing to groups of duplicates.

use crate::grouper::{
    classes_view, group_by_size, group_by_text, lemma_group_prefix, positions_view,
    positions_where, select, shared_classes, texts,
};
use crate::order::{descending_order, is_descending_order, lemma_descending_prefix, order_by_size};
use crate::partition::{
    lemma_duplicate_groups_are_ordered, lemma_found_classes, lemma_hashed_members,
    lemma_size_classes, lemma_sized_files,
};
use crate::stages::{
    DuplicateGroupView, EntryView, FileInfoView, class_hash, class_size, comparable,
    digest_candidates, digest_classes, digest_of, duplicate_groups, file_record, found_classes,
    group_record, has_digest, hashed_members, is_duplicate_partition, is_scan_result, is_sized,
    is_strict, scan_classes, size_classes, size_of, sized_files, verified_classes,
};
use crate::text::decimal_string;
use vstd::prelude::*;
use vstd::string::*;

verus! {

/// One entry of a directory as the caller found it.
///
/// `size` is `None` where the entry's metadata could not be read. `digest`
/// is the lowercase hexadecimal SHA-256 digest of the content, `None` where
/// it was not computed or the file could not be read.
#[derive(Debug, Clone)]
pub struct ListedEntry {
    pub path: String,
    pub name: String,
    pub extension: String,
    pub is_file: bool,
    pub size: Option<u64>,
    pub digest: Option<String>,
}

impl View for ListedEntry {
    type V = EntryView;

    open spec fn view(&self) -> EntryView {
        EntryView {
            path: self.path@,
            name: self.name@,
            extension: self.extension@,
            is_file: self.is_file,
            size: self.size,
            digest: match self.digest {
                Some(d) => Some(d@),
                None => None,
            },
        }
    }
}

/// The values of a sequence of entries.
pub open spec fn entries_view(entries: Seq<ListedEntry>) -> Seq<EntryView> {
    entries.map_values(|e: ListedEntry| e@)
}

/// One file of a group of duplicates.
#[derive(Debug, Clone)]
pub struct FileInfo {
    pub path: String,
    pub name: String,
    pub size: u64,
    pub hash: String,
    pub extension: String,
}

impl View for FileInfo {
    type V = FileInfoView;

    open spec fn view(&self) -> FileInfoView {
        FileInfoView {
            path: self.path@,
            name: self.name@,
            size: self.size,
            hash: self.hash@,
            extension: self.extension@,
        }
    }
}

/// Two or more files that count as copies of each other.
///
/// In strict mode `hash` is the digest that the files share; in fast mode
/// it is a token made from their size and says nothing of their content.
#[derive(Debug, Clone)]
pub struct DuplicateGroup {
    pub hash: String,
    pub size: u64,
    pub files: Vec<FileInfo>,
}

impl View for DuplicateGroup {
    type V = DuplicateGroupView;

    open spec fn view(&self) -> DuplicateGroupView {
        DuplicateGroupView {
            hash: self.hash@,
            size: self.size,
            files: self.files@.map_values(|f: FileInfo| f@),
        }
    }
}

/// The values of a sequence of groups.
pub open spec fn groups_view(groups: Seq<DuplicateGroup>) -> Seq<DuplicateGroupView> {
    groups.map_values(|g: DuplicateGroup| g@)
}

/// The indices of the regular files of known size, in listing order.
fn sized_files_of(entries: &Vec<ListedEntry>) -> (files: Vec<usize>)
    ensures
        positions_view(files@) == sized_files(entries_view(entries@)),
{
    let ghost ev = entries_view(entries@);
    let mut files: Vec<usize> = Vec::new();
    let mut i: usize = 0;
    while i < entries.len()
        invariant
            i <= entries.len(),
            ev == entries_view(entries@),
            positions_view(files@) == positions_where(i as nat, is_sized(ev)),
        decreases entries.len() - i,
    {
        assert(ev[i as int] == entries[i as int]@);
        if entries[i].is_file && entries[i].size.is_some() {
            files.push(i);
            assert(is_sized(ev)(i as int));
            assert(positions_view(files@) =~= positions_where((i + 1) as nat, is_sized(ev)));
        } else {
            assert(!is_sized(ev)(i as int));
        }
        i = i + 1;
    }
    files
}

/// The sizes of the given entries.
fn sizes_at(entries: &Vec<ListedEntry>, files: &Vec<usize>) -> (sizes: Vec<u64>)
    requires
        forall|k: int|
            0 <= k < files.len() ==> comparable(entries_view(entries@), false, #[trigger] files[k] as int),
    ensures
        sizes@ == positions_view(files@).map_values(size_of(entries_view(entries@))),
{
    let ghost ev = entries_view(entries@);
    let mut sizes: Vec<u64> = Vec::new();
    let mut k: usize = 0;
    while k < files.len()
        invariant
            k <= files.len(),
            ev == entries_view(entries@),
            forall|k: int| 0 <= k < files.len() ==> comparable(ev, false, #[trigger] files[k] as int),
            sizes.len() == k,
            forall|j: int| 0 <= j < k ==> sizes[j] == size_of(ev)(files[j] as int),
        decreases files.len() - k,
    {
        let i: usize = files[k];
        assert(comparable(ev, false, files[k as int] as int));
        assert(ev[i as int] == entries[i as int]@);
        sizes.push(entries[i].size.unwrap());
        k = k + 1;
    }
    assert(sizes@ =~= positions_view(files@).map_values(size_of(ev)));
    sizes
}

/// Stage one: the classes of two or more regular files of equal size.
fn size_classes_of(entries: &Vec<ListedEntry>) -> (classes: Vec<Vec<usize>>)
    ensures
        classes_view(classes@) == size_classes(entries_view(entries@)),
{
    let ghost ev = entries_view(entries@);
    let files = sized_files_of(entries);
    proof {
        lemma_sized_files(ev);
        assert forall|k: int| 0 <= k < files.len() implies comparable(
            ev,
            false,
            #[trigger] files[k] as int,
        ) by {
            assert(sized_files(ev)[k] == files[k] as int);
        }
    }
    let sizes = sizes_at(entries, &files);
    let by_position = group_by_size(&sizes);
    proof {
        lemma_group_prefix(sizes@, sizes@.len());
        assert forall|c: int, a: int|
            0 <= c < by_position.len() && 0 <= a < by_position[c].len() implies #[trigger] by_position[c][a]
            < files.len() by {
            assert(classes_view(by_position@)[c][a] == by_position[c][a] as int);
        }
    }
    shared_classes(&files, &by_position)
}

/// The members of `class` that have a digest, in their order.
fn hashed_members_of(entries: &Vec<ListedEntry>, class: &Vec<usize>) -> (members: Vec<usize>)
    requires
        forall|a: int| 0 <= a < class.len() ==> #[trigger] class[a] < entries.len(),
    ensures
        positions_view(members@) == hashed_members(
            entries_view(entries@),
            positions_view(class@),
        ),
{
    let ghost ev = entries_view(entries@);
    let ghost cv = positions_view(class@);
    let mut members: Vec<usize> = Vec::new();
    let mut a: usize = 0;
    while a < class.len()
        invariant
            a <= class.len(),
            ev == entries_view(entries@),
            cv == positions_view(class@),
            forall|a: int| 0 <= a < class.len() ==> #[trigger] class[a] < entries.len(),
            positions_view(members@) == select(cv, positions_where(a as nat, has_digest(ev, cv))),
        decreases class.len() - a,
    {
        let ghost before = positions_view(members@);
        let ghost positions = positions_where(a as nat, has_digest(ev, cv));
        let i: usize = class[a];
        assert(cv[a as int] == i);
        assert(ev[i as int] == entries[i as int]@);
        if entries[i].digest.is_some() {
            members.push(i);
            assert(has_digest(ev, cv)(a as int));
            assert(positions_where((a + 1) as nat, has_digest(ev, cv)) == positions.push(a as int));
            assert(positions_view(members@) =~= before.push(i as int));
            assert(select(cv, positions.push(a as int)) =~= select(cv, positions).push(i as int));
        } else {
            assert(!has_digest(ev, cv)(a as int));
        }
        a = a + 1;
    }
    members
}

/// The digests of the given entries.
fn digests_at(entries: &Vec<ListedEntry>, members: &Vec<usize>) -> (digests: Vec<String>)
    requires
        forall|k: int|
            0 <= k < members.len() ==> #[trigger] members[k] < entries.len() && entries_view(
                entries@,
            )[members[k] as int].digest is Some,
    ensures
        texts(digests@) == positions_view(members@).map_values(digest_of(entries_view(entries@))),
{
    let ghost ev = entries_view(entries@);
    let mut digests: Vec<String> = Vec::new();
    let mut k: usize = 0;
    while k < members.len()
        invariant
            k <= members.len(),
            ev == entries_view(entries@),
            forall|k: int|
                0 <= k < members.len() ==> #[trigger] members[k] < entries.len()
                    && ev[members[k] as int].digest is Some,
            digests.len() == k,
            forall|j: int| 0 <= j < k ==> digests[j]@ == digest_of(ev)(members[j] as int),
        decreases members.len() - k,
    {
        let i: usize = members[k];
        assert(ev[i as int] == entries[i as int]@);
        digests.push(entries[i].digest.as_ref().unwrap().clone());
        k = k + 1;
    }
    assert(texts(digests@) =~= positions_view(members@).map_values(digest_of(ev)));
    digests
}

/// Stage two on one size class: the classes of two or more members of
/// equal digest.
fn digest_classes_of(entries: &Vec<ListedEntry>, class: &Vec<usize>) -> (classes: Vec<Vec<usize>>)
    requires
        forall|a: int| 0 <= a < class.len() ==> #[trigger] class[a] < entries.len(),
    ensures
        classes_view(classes@) == digest_classes(entries_view(entries@), positions_view(class@)),
{
    let ghost ev = entries_view(entries@);
    let ghost cv = positions_view(class@);
    let members = hashed_members_of(entries, class);
    proof {
        lemma_hashed_members(ev, cv);
        assert forall|k: int| 0 <= k < members.len() implies #[trigger] members[k] < entries.len()
            && ev[members[k] as int].digest is Some by {
            let x = hashed_members(ev, cv)[k];
            assert(x == members[k] as int);
            assert(cv.contains(x));
            let a = choose|a: int| 0 <= a < cv.len() && cv[a] == x;
            assert(class[a] < entries.len());
        }
    }
    let digests = digests_at(entries, &members);
    let by_position = group_by_text(&digests);
    proof {
        lemma_group_prefix(texts(digests@), digests@.len());
        assert forall|c: int, a: int|
            0 <= c < by_position.len() && 0 <= a < by_position[c].len() implies #[trigger] by_position[c][a]
            < members.len() by {
            assert(classes_view(by_position@)[c][a] == by_position[c][a] as int);
        }
    }
    shared_classes(&members, &by_position)
}

/// The duplicate classes in the order in which the stages produce them.
fn found_classes_of(entries: &Vec<ListedEntry>, strict: bool) -> (found: Vec<Vec<usize>>)
    ensures
        classes_view(found@) == found_classes(entries_view(entries@), strict),
{
    let ghost ev = entries_view(entries@);
    let candidates = size_classes_of(entries);
    if !strict {
        return candidates;
    }
    proof {
        lemma_size_classes(ev);
    }
    let mut found: Vec<Vec<usize>> = Vec::new();
    let mut c: usize = 0;
    while c < candidates.len()
        invariant
            c <= candidates.len(),
            ev == entries_view(entries@),
            classes_view(candidates@) == size_classes(ev),
            is_duplicate_partition(ev, false, size_classes(ev)),
            classes_view(found@) == verified_classes(ev, size_classes(ev), c as nat),
        decreases candidates.len() - c,
    {
        let ghost before = classes_view(found@);
        assert forall|a: int| 0 <= a < candidates[c as int].len() implies #[trigger] candidates[c as int][a]
            < entries.len() by {
            assert(size_classes(ev)[c as int][a] == candidates[c as int][a] as int);
            assert(comparable(ev, false, size_classes(ev)[c as int][a]));
        }
        let mut fresh = digest_classes_of(entries, &candidates[c]);
        let ghost added = classes_view(fresh@);
        assert(added == digest_classes(ev, size_classes(ev)[c as int]));
        found.append(&mut fresh);
        assert(classes_view(found@) =~= before + added);
        c = c + 1;
    }
    found
}

/// The size of each class.
fn class_sizes(entries: &Vec<ListedEntry>, classes: &Vec<Vec<usize>>) -> (sizes: Vec<u64>)
    requires
        forall|c: int|
            0 <= c < classes.len() ==> (#[trigger] classes[c]).len() >= 1 && comparable(
                entries_view(entries@),
                false,
                classes[c][0] as int,
            ),
    ensures
        sizes@ == classes_view(classes@).map_values(class_size(entries_view(entries@))),
{
    let ghost ev = entries_view(entries@);
    let mut sizes: Vec<u64> = Vec::new();
    let mut c: usize = 0;
    while c < classes.len()
        invariant
            c <= classes.len(),
            ev == entries_view(entries@),
            forall|c: int|
                0 <= c < classes.len() ==> (#[trigger] classes[c]).len() >= 1 && comparable(
                    ev,
                    false,
                    classes[c][0] as int,
                ),
            sizes.len() == c,
            forall|d: int|
                0 <= d < c ==> sizes[d] == class_size(ev)(#[trigger] classes_view(classes@)[d]),
        decreases classes.len() - c,
    {
        assert(classes[c as int].len() >= 1);
        let first: usize = classes[c][0];
        assert(classes_view(classes@)[c as int][0] == first);
        assert(ev[first as int] == entries[first as int]@);
        sizes.push(entries[first].size.unwrap());
        c = c + 1;
    }
    assert(sizes@ =~= classes_view(classes@).map_values(class_size(ev)));
    sizes
}

/// The group that a class of entries becomes.
fn make_group(entries: &Vec<ListedEntry>, class: &Vec<usize>, strict: bool) -> (group:
    DuplicateGroup)
    requires
        class.len() >= 1,
        forall|a: int|
            0 <= a < class.len() ==> comparable(
                entries_view(entries@),
                strict,
                #[trigger] class[a] as int,
            ),
    ensures
        group@ == group_record(entries_view(entries@), strict)(positions_view(class@)),
{
    let ghost ev = entries_view(entries@);
    let ghost cv = positions_view(class@);
    let first: usize = class[0];
    assert(comparable(ev, strict, class[0] as int));
    assert(cv[0] == first);
    assert(ev[first as int] == entries[first as int]@);
    let size: u64 = entries[first].size.unwrap();
    let hash: String = if strict {
        entries[first].digest.as_ref().unwrap().clone()
    } else {
        let mut token = String::from_str("size_");
        let digits = decimal_string(size);
        token.append(digits.as_str());
        token
    };
    assert(size == class_size(ev)(cv));
    assert(hash@ == class_hash(ev, strict, cv));
    let mut files: Vec<FileInfo> = Vec::new();
    let mut a: usize = 0;
    while a < class.len()
        invariant
            a <= class.len(),
            ev == entries_view(entries@),
            forall|a: int| 0 <= a < class.len() ==> comparable(ev, strict, #[trigger] class[a] as int),
            files.len() == a,
            forall|j: int|
                0 <= j < a ==> (#[trigger] files[j])@ == file_record(ev, size, hash@)(class[j] as int),
        decreases class.len() - a,
    {
        let i: usize = class[a];
        assert(comparable(ev, strict, class[a as int] as int));
        assert(ev[i as int] == entries[i as int]@);
        let entry = &entries[i];
        let file = FileInfo {
            path: entry.path.clone(),
            name: entry.name.clone(),
            size: size,
            hash: hash.clone(),
            extension: entry.extension.clone(),
        };
        files.push(file);
        a = a + 1;
    }
    let group = DuplicateGroup { hash: hash, size: size, files: files };
    assert(group@.files =~= cv.map_values(file_record(ev, size, group@.hash)));
    group
}

/// Finds the groups of duplicates among the entries of one directory.
///
/// Entries that are not regular files, or whose size is unknown, are left
/// out. The remaining files are grouped by size. In fast mode every size
/// shared by two or more files is a group. In strict mode the files of such
/// a size that have a digest are grouped again by digest, and every digest
/// shared by two or more of them is a group. Groups of larger files come
/// first.
pub fn find_duplicates(entries: &Vec<ListedEntry>, strict: bool) -> (groups: Vec<DuplicateGroup>)
    ensures
        groups_view(groups@) == duplicate_groups(entries_view(entries@), strict),
        is_scan_result(groups_view(groups@)),
{
    let ghost ev = entries_view(entries@);
    let found = found_classes_of(entries, strict);
    let ghost fv = classes_view(found@);
    proof {
        lemma_found_classes(ev, strict);
        assert forall|c: int| 0 <= c < found.len() implies (#[trigger] found[c]).len() >= 1
            && comparable(ev, false, found[c][0] as int) by {
            assert(fv[c].len() >= 2);
            assert(fv[c][0] == found[c][0] as int);
            assert(comparable(ev, strict, fv[c][0]));
        }
    }
    let sizes = class_sizes(entries, &found);
    let order = order_by_size(&sizes);
    let ghost ov = positions_view(order@);
    proof {
        lemma_descending_prefix(sizes@, sizes@.len());
    }
    let mut groups: Vec<DuplicateGroup> = Vec::new();
    let mut k: usize = 0;
    while k < order.len()
        invariant
            k <= order.len(),
            ev == entries_view(entries@),
            fv == classes_view(found@),
            fv == found_classes(ev, strict),
            ov == positions_view(order@),
            ov == descending_order(fv.map_values(class_size(ev))),
            is_descending_order(ov, fv.map_values(class_size(ev)), fv.len() as int),
            is_duplicate_partition(ev, strict, fv),
            groups.len() == k,
            forall|j: int|
                0 <= j < k ==> (#[trigger] groups[j])@ == group_record(ev, strict)(
                    scan_classes(ev, strict)[j],
                ),
        decreases order.len() - k,
    {
        let c: usize = order[k];
        assert(0 <= ov[k as int] < fv.len());
        assert(ov[k as int] == c);
        assert(scan_classes(ev, strict)[k as int] == fv[c as int]);
        assert(fv[c as int] == positions_view(found[c as int]@));
        assert forall|a: int| 0 <= a < found[c as int].len() implies comparable(
            ev,
            strict,
            #[trigger] found[c as int][a] as int,
        ) by {
            assert(fv[c as int][a] == found[c as int][a] as int);
            assert(comparable(ev, strict, fv[c as int][a]));
        }
        assert(fv[c as int].len() >= 2);
        let group = make_group(entries, &found[c], strict);
        groups.push(group);
        k = k + 1;
    }
    assert(groups_view(groups@) =~= duplicate_groups(ev, strict));
    proof {
        lemma_duplicate_groups_are_ordered(ev, strict);
    }
    groups
}

/// What the caller found at the path that it was asked to scan.
#[derive(Debug, Clone)]
pub enum DirectoryListing {
    /// Nothing exists at the path.
    Missing,
    /// The path exists and is not a directory.
    NotADirectory,
    /// The directory could not be read; the text is the system's reason.
    Unreadable(String),
    /// The direct entries of the directory.
    Entries(Vec<ListedEntry>),
}

/// Why a scan failed as a whole.
#[derive(Debug, Clone)]
pub enum ScanError {
    /// Nothing exists at the path, which the error carries.
    NotFound(String),
    /// The path, which the error carries, is not a directory.
    NotADirectory(String),
    /// The directory could not be read; the error carries the reason.
    IoError(String),
}

impl ScanError {
    /// The message that is shown for the error.
    pub open spec fn text(&self) -> Seq<char> {
        match self {
            ScanError::NotFound(path) => "フォルダが存在しません: "@ + path@,
            ScanError::NotADirectory(path) => "ディレクトリではありません: "@ + path@,
            ScanError::IoError(reason) => "フォルダの読み取りに失敗: "@ + reason@,
        }
    }

    /// The message that is shown for the error.
    pub fn message(&self) -> (text: String)
        ensures
            text@ == self.text(),
    {
        match self {
            ScanError::NotFound(path) => String::from_str("フォルダが存在しません: ").concat(
                path.as_str(),
            ),
            ScanError::NotADirectory(path) => String::from_str(
                "ディレクトリではありません: ",
            ).concat(path.as_str()),
            ScanError::IoError(reason) => String::from_str("フォルダの読み取りに失敗: ").concat(
                reason.as_str(),
            ),
        }
    }
}

/// Tells whether `mode` asks for verification by digest.
pub fn strict_mode(mode: &str) -> (strict: bool)
    ensures
        strict == is_strict(mode@),
{
    let given = String::from_str(mode);
    let wanted = String::from_str("strict");
    given == wanted
}

/// Lists the entries that have to be hashed before `scan_for_duplicates`
/// is called: the regular files that share their size with another one,
/// and only in strict mode. Each index that is returned is a valid index
/// into `entries`.
pub fn hash_candidates(entries: &Vec<ListedEntry>, mode: &str) -> (indices: Vec<usize>)
    ensures
        positions_view(indices@) == digest_candidates(entries_view(entries@), is_strict(mode@)),
        forall|k: int| 0 <= k < indices.len() ==> #[trigger] indices[k] < entries.len(),
{
    let ghost ev = entries_view(entries@);
    let mut indices: Vec<usize> = Vec::new();
    if !strict_mode(mode) {
        assert(positions_view(indices@) =~= Seq::<int>::empty());
        return indices;
    }
    let classes = size_classes_of(entries);
    let ghost cv = classes_view(classes@);
    proof {
        lemma_size_classes(ev);
        assert(cv.take(0) =~= Seq::<Seq<int>>::empty());
    }
    let mut c: usize = 0;
    while c < classes.len()
        invariant
            c <= classes.len(),
            cv == classes_view(classes@),
            cv == size_classes(ev),
            is_duplicate_partition(ev, false, cv),
            ev.len() == entries.len(),
            positions_view(indices@) == cv.take(c as int).flatten(),
            forall|k: int| 0 <= k < indices.len() ==> #[trigger] indices[k] < entries.len(),
        decreases classes.len() - c,
    {
        let ghost before = positions_view(indices@);
        let class = &classes[c];
        let mut a: usize = 0;
        while a < class.len()
            invariant
                a <= class.len(),
                c < classes.len(),
                class == classes[c as int],
                cv == classes_view(classes@),
                is_duplicate_partition(ev, false, cv),
                ev.len() == entries.len(),
                positions_view(indices@) == before + cv[c as int].take(a as int),
                forall|k: int| 0 <= k < indices.len() ==> #[trigger] indices[k] < entries.len(),
            decreases class.len() - a,
        {
            let ghost so_far = positions_view(indices@);
            let i: usize = class[a];
            assert(cv[c as int][a as int] == i);
            assert(comparable(ev, false, cv[c as int][a as int]));
            indices.push(i);
            assert(positions_view(indices@) =~= so_far.push(i as int));
            assert(cv[c as int].take(a + 1) =~= cv[c as int].take(a as int).push(i as int));
            a = a + 1;
        }
        proof {
            assert(cv[c as int].take(class.len() as int) =~= cv[c as int]);
            assert(cv.take(c + 1) =~= cv.take(c as int).push(cv[c as int]));
            cv.take(c as int).lemma_flatten_push(cv[c as int]);
        }
        c = c + 1;
    }
    assert(cv.take(classes.len() as int) =~= cv);
    indices
}

/// Scans one directory for duplicates.
///
/// `listing` is what the caller found at `folder_path`. A path that does
/// not exist, is no directory or cannot be read fails the scan. Otherwise
/// the result is that of `find_duplicates` on the entries, strict for the
/// mode `strict` and fast for every other mode.
pub fn scan_for_duplicates(folder_path: &str, listing: &DirectoryListing, mode: &str) -> (result:
    Result<Vec<DuplicateGroup>, ScanError>)
    ensures
        match listing {
            DirectoryListing::Missing => result matches Err(ScanError::NotFound(path)) && path@
                == folder_path@,
            DirectoryListing::NotADirectory => result matches Err(ScanError::NotADirectory(path))
                && path@ == folder_path@,
            DirectoryListing::Unreadable(reason) => result matches Err(ScanError::IoError(text))
                && text@ == reason@,
            DirectoryListing::Entries(entries) => result matches Ok(groups) && groups_view(groups@)
                == duplicate_groups(entries_view(entries@), is_strict(mode@)) && is_scan_result(
                groups_view(groups@),
            ),
        },
{
    match listing {
        DirectoryListing::Missing => Err(ScanError::NotFound(String::from_str(folder_path))),
        DirectoryListing::NotADirectory => Err(
            ScanError::NotADirectory(String::from_str(folder_path)),
        ),
        DirectoryListing::Unreadable(reason) => Err(ScanError::IoError(reason.clone())),
        DirectoryListing::Entries(entries) => Ok(find_duplicates(entries, strict_mode(mode))),
    }
}

} // verus!
