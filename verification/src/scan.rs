//! What a walk of a tree met, and the bytes below each of its directories.

use crate::item::{file_total, lemma_file_total_concat, Item, ItemView};
use crate::order::{
    is_descending, is_ranking, lemma_ranking_keeps_items, lemma_ranking_keeps_total, ranking_of,
    sort_by_size,
};
use crate::paths::{ancestor_chain, ancestors, lemma_shrinking_chain_is_distinct};
use vstd::hash_map::StringHashMap;
use vstd::prelude::*;

verus! {

/// What a walk found at one place of the tree.
#[derive(Debug, Clone, Copy, PartialEq, Eq, Structural)]
pub enum VisitKind {
    /// A regular file of `size` bytes.
    File { size: u64 },
    /// A regular file whose size could not be read.
    FileWithoutSize,
    /// A directory.
    Directory,
    /// Something that is neither a file nor a directory.
    Other,
    /// An entry that the walk could not read.
    Unreadable,
}

/// One entry of a walk: its path, how many levels below the root of the
/// walk it lies (the root itself lies at depth 0), and what was found.
#[derive(Debug)]
pub struct Visit {
    pub path: String,
    pub depth: usize,
    pub kind: VisitKind,
}

/// A visit as the contracts see it.
pub struct VisitView {
    pub path: Seq<char>,
    pub depth: nat,
    pub kind: VisitKind,
}

impl View for Visit {
    type V = VisitView;

    open spec fn view(&self) -> VisitView {
        VisitView { path: self.path@, depth: self.depth as nat, kind: self.kind }
    }
}

impl Clone for Visit {
    fn clone(&self) -> (copy: Self)
        ensures
            copy@ == self@,
    {
        Visit { path: self.path.clone(), depth: self.depth, kind: self.kind }
    }
}

impl DeepView for Visit {
    type V = VisitView;

    open spec fn deep_view(&self) -> VisitView {
        self@
    }
}

/// The bytes of a visit: the size of a file that has one, else none.
pub open spec fn file_bytes(visit: VisitView) -> nat {
    match visit.kind {
        VisitKind::File { size } => size as nat,
        _ => 0,
    }
}

/// The visit lies below `directory`, at whatever depth, within the walk.
pub open spec fn lies_beneath(visit: VisitView, directory: Seq<char>) -> bool {
    ancestors(visit.path, visit.depth).contains(directory)
}

/// The bytes of all the files of a walk.
pub open spec fn total_file_bytes(visits: Seq<VisitView>) -> nat
    decreases visits.len(),
{
    if visits.len() == 0 {
        0
    } else {
        total_file_bytes(visits.drop_last()) + file_bytes(visits.last())
    }
}

/// The bytes of the files of a walk that lie below `directory`.
pub open spec fn bytes_beneath(visits: Seq<VisitView>, directory: Seq<char>) -> nat
    decreases visits.len(),
{
    if visits.len() == 0 {
        0
    } else {
        bytes_beneath(visits.drop_last(), directory) + if lies_beneath(visits.last(), directory) {
            file_bytes(visits.last())
        } else {
            0
        }
    }
}

/// The bytes that a table of directory sizes holds for `directory`: none
/// where it has no entry.
pub open spec fn recorded(sizes: Map<Seq<char>, u64>, directory: Seq<char>) -> nat {
    if sizes.contains_key(directory) {
        sizes[directory] as nat
    } else {
        0
    }
}

/// No directory holds more bytes than the whole walk.
pub proof fn lemma_bytes_beneath_bounded(visits: Seq<VisitView>, directory: Seq<char>)
    ensures
        bytes_beneath(visits, directory) <= total_file_bytes(visits),
    decreases visits.len(),
{
    if visits.len() > 0 {
        lemma_bytes_beneath_bounded(visits.drop_last(), directory);
    }
}

/// The files that a walk met first hold no more bytes than all of them.
pub proof fn lemma_total_file_bytes_grows(visits: Seq<VisitView>, n: int)
    requires
        0 <= n <= visits.len(),
    ensures
        total_file_bytes(visits.take(n)) <= total_file_bytes(visits),
    decreases visits.len() - n,
{
    if n < visits.len() {
        lemma_total_file_bytes_grows(visits, n + 1);
        assert(visits.take(n + 1).drop_last() =~= visits.take(n));
    } else {
        assert(visits.take(n) =~= visits);
    }
}

/// The bytes that the table holds for the directory at `path`: none where
/// it has no entry.
pub fn recorded_size(sizes: &StringHashMap<u64>, path: &str) -> (bytes: u64)
    ensures
        bytes == recorded(sizes@, path@),
{
    match sizes.get(path) {
        Some(held) => *held,
        None => 0,
    }
}

/// How often `name` stands in `names`.
pub open spec fn occurrences(names: Seq<Seq<char>>, name: Seq<char>) -> nat
    decreases names.len(),
{
    if names.len() == 0 {
        0
    } else {
        occurrences(names.drop_last(), name) + if names.last() == name {
            1nat
        } else {
            0nat
        }
    }
}

/// A name stands in the first names no more often than in all of them.
pub proof fn lemma_occurrences_grow(names: Seq<Seq<char>>, n: int, name: Seq<char>)
    requires
        0 <= n <= names.len(),
    ensures
        occurrences(names.take(n), name) <= occurrences(names, name),
    decreases names.len() - n,
{
    if n < names.len() {
        lemma_occurrences_grow(names, n + 1, name);
        assert(names.take(n + 1).drop_last() =~= names.take(n));
    } else {
        assert(names.take(n) =~= names);
    }
}

/// A name stands in `names` where it stands there at least once.
pub proof fn lemma_occurrences_contains(names: Seq<Seq<char>>, name: Seq<char>)
    ensures
        names.contains(name) <==> occurrences(names, name) > 0,
    decreases names.len(),
{
    if names.len() > 0 {
        let front = names.drop_last();
        lemma_occurrences_contains(front, name);
        assert(names[names.len() - 1] == names.last());
        if names.contains(name) {
            let k = choose|k: int| 0 <= k < names.len() && names[k] == name;
            if k < front.len() {
                assert(front[k] == name);
            }
        }
        if front.contains(name) {
            let k = choose|k: int| 0 <= k < front.len() && front[k] == name;
            assert(names[k] == name);
        }
    }
}

/// Where no name stands twice, no name stands more than once.
pub proof fn lemma_occurrences_distinct(names: Seq<Seq<char>>, name: Seq<char>)
    requires
        names.no_duplicates(),
    ensures
        occurrences(names, name) == if names.contains(name) {
            1nat
        } else {
            0nat
        },
    decreases names.len(),
{
    lemma_occurrences_contains(names, name);
    if names.len() > 0 {
        let front = names.drop_last();
        assert forall|i: int, j: int| 0 <= i < front.len() && 0 <= j < front.len() && i != j implies front[i]
            != front[j] by {
            assert(front[i] == names[i] && front[j] == names[j]);
        }
        lemma_occurrences_distinct(front, name);
        lemma_occurrences_contains(front, name);
        if names.last() == name && front.contains(name) {
            let k = choose|k: int| 0 <= k < front.len() && front[k] == name;
            assert(names[k] == names[names.len() - 1]);
        }
    }
}

/// Adds `bytes` to what the table holds for each of `directories`, once
/// for each time that it stands there; one that has no entry yet gets
/// one.
pub fn credit(sizes: &mut StringHashMap<u64>, directories: &Vec<String>, bytes: u64)
    requires
        forall|i: int|
            0 <= i < directories.len() ==> recorded(old(sizes)@, #[trigger] directories.deep_view()[i])
                + occurrences(directories.deep_view(), directories.deep_view()[i]) * bytes
                <= u64::MAX,
    ensures
        forall|directory: Seq<char>| #[trigger]
            recorded(final(sizes)@, directory) == recorded(old(sizes)@, directory) + occurrences(
                directories.deep_view(),
                directory,
            ) * bytes,
        forall|directory: Seq<char>| #[trigger]
            final(sizes)@.contains_key(directory) <==> old(sizes)@.contains_key(directory)
                || directories.deep_view().contains(directory),
{
    let ghost names = directories.deep_view();
    let mut i: usize = 0;
    proof {
        assert(names.take(0) =~= Seq::<Seq<char>>::empty());
        assert forall|directory: Seq<char>| #[trigger]
            recorded(sizes@, directory) == recorded(old(sizes)@, directory) + occurrences(
                names.take(0),
                directory,
            ) * bytes by {
            assert(occurrences(names.take(0), directory) == 0);
        }
    }
    while i < directories.len()
        invariant
            i <= directories.len(),
            names == directories.deep_view(),
            forall|k: int|
                0 <= k < names.len() ==> recorded(old(sizes)@, #[trigger] names[k]) + occurrences(
                    names,
                    names[k],
                ) * bytes <= u64::MAX,
            forall|directory: Seq<char>| #[trigger]
                recorded(sizes@, directory) == recorded(old(sizes)@, directory) + occurrences(
                    names.take(i as int),
                    directory,
                ) * bytes,
            forall|directory: Seq<char>| #[trigger]
                sizes@.contains_key(directory) <==> old(sizes)@.contains_key(directory)
                    || names.take(i as int).contains(directory),
        decreases directories.len() - i,
    {
        let name = directories[i].clone();
        let ghost before = sizes@;
        let ghost added = names[i as int];
        let ghost shorter = names.take(i as int);
        let ghost longer = names.take(i + 1);
        assert(name@ == added);
        proof {
            assert(longer.drop_last() =~= shorter);
            assert(longer.last() == added);
            lemma_occurrences_grow(names, i + 1, added);
            let seen = occurrences(shorter, added);
            let all = occurrences(names, added);
            assert(recorded(before, added) == recorded(old(sizes)@, added) + seen * bytes);
            assert((seen + 1) * bytes <= all * bytes) by (nonlinear_arith)
                requires
                    seen + 1 <= all,
            ;
            assert((seen + 1) * bytes == seen * bytes + bytes) by (nonlinear_arith);
        }
        let held = recorded_size(sizes, name.as_str());
        sizes.insert(name, held + bytes);
        proof {
            assert forall|directory: Seq<char>| #[trigger]
                recorded(sizes@, directory) == recorded(old(sizes)@, directory) + occurrences(
                    longer,
                    directory,
                ) * bytes by {
                assert(recorded(before, directory) == recorded(old(sizes)@, directory)
                    + occurrences(shorter, directory) * bytes);
                if directory == added {
                    let seen = occurrences(shorter, added);
                    assert((seen + 1) * bytes == seen * bytes + bytes) by (nonlinear_arith);
                }
            }
            assert forall|directory: Seq<char>| #[trigger]
                sizes@.contains_key(directory) <==> old(sizes)@.contains_key(directory)
                    || longer.contains(directory) by {
                assert(before.contains_key(directory) <==> old(sizes)@.contains_key(directory)
                    || shorter.contains(directory));
                lemma_occurrences_contains(shorter, directory);
                lemma_occurrences_contains(longer, directory);
            }
        }
        i += 1;
    }
    assert(names.take(i as int) =~= names);
}

/// A file of the walk lies below `directory`.
pub open spec fn has_file_beneath(visits: Seq<VisitView>, directory: Seq<char>) -> bool {
    exists|k: int|
        0 <= k < visits.len() && (#[trigger] visits[k]).kind is File && lies_beneath(
            visits[k],
            directory,
        )
}

/// The bytes below every directory of a walk: for each directory the
/// sizes of all the files that lie below it, at whatever depth. The table
/// has an entry for each directory that a file lies below; a directory
/// without one holds no bytes.
pub fn directory_sizes(visits: &Vec<Visit>) -> (sizes: StringHashMap<u64>)
    requires
        total_file_bytes(visits.deep_view()) <= u64::MAX,
    ensures
        forall|directory: Seq<char>| #[trigger]
            recorded(sizes@, directory) == bytes_beneath(visits.deep_view(), directory),
        forall|directory: Seq<char>| #[trigger]
            sizes@.contains_key(directory) <==> has_file_beneath(visits.deep_view(), directory),
{
    let ghost walk = visits.deep_view();
    let mut sizes: StringHashMap<u64> = StringHashMap::new();
    let mut i: usize = 0;
    assert(walk.take(0) =~= Seq::<VisitView>::empty());
    while i < visits.len()
        invariant
            i <= visits.len(),
            walk == visits.deep_view(),
            total_file_bytes(walk) <= u64::MAX,
            forall|directory: Seq<char>| #[trigger]
                recorded(sizes@, directory) == bytes_beneath(walk.take(i as int), directory),
            forall|directory: Seq<char>| #[trigger]
                sizes@.contains_key(directory) <==> has_file_beneath(
                    walk.take(i as int),
                    directory,
                ),
        decreases visits.len() - i,
    {
        let ghost seen = walk.take(i as int);
        let ghost next = walk.take(i + 1);
        let ghost visit = walk[i as int];
        let ghost before = sizes@;
        assert(visit == visits@[i as int]@);
        assert(next.drop_last() =~= seen);
        assert(next.last() == visit);
        let ghost mut chain_names: Seq<Seq<char>> = Seq::empty();
        match visits[i].kind {
            VisitKind::File { size } => {
                let chain = ancestor_chain(visits[i].path.as_str(), visits[i].depth);
                proof {
                    chain_names = chain.deep_view();
                    lemma_shrinking_chain_is_distinct(chain_names);
                    lemma_total_file_bytes_grows(walk, i + 1);
                    assert forall|k: int| 0 <= k < chain.len() implies recorded(
                        sizes@,
                        #[trigger] chain.deep_view()[k],
                    ) + occurrences(chain_names, chain.deep_view()[k]) * size <= u64::MAX by {
                        lemma_bytes_beneath_bounded(seen, chain_names[k]);
                        lemma_occurrences_distinct(chain_names, chain_names[k]);
                    }
                }
                credit(&mut sizes, &chain, size);
                proof {
                    assert forall|directory: Seq<char>| #[trigger]
                        recorded(sizes@, directory) == bytes_beneath(next, directory) by {
                        lemma_occurrences_distinct(chain_names, directory);
                        assert(recorded(before, directory) == bytes_beneath(seen, directory));
                    }
                }
            },
            _ => {},
        }
        proof {
            assert forall|directory: Seq<char>| #[trigger]
                sizes@.contains_key(directory) <==> has_file_beneath(next, directory) by {
                assert(before.contains_key(directory) <==> has_file_beneath(seen, directory));
                if has_file_beneath(seen, directory) {
                    let k = choose|k: int|
                        0 <= k < seen.len() && (#[trigger] seen[k]).kind is File && lies_beneath(
                            seen[k],
                            directory,
                        );
                    assert(next[k] == seen[k]);
                }
                if has_file_beneath(next, directory) {
                    let k = choose|k: int|
                        0 <= k < next.len() && (#[trigger] next[k]).kind is File && lies_beneath(
                            next[k],
                            directory,
                        );
                    if k < seen.len() {
                        assert(seen[k] == next[k]);
                    }
                }
                if visit.kind is File && lies_beneath(visit, directory) {
                    assert(next[i as int] == visit);
                }
            }
        }
        i += 1;
    }
    assert(walk.take(i as int) =~= walk);
    sizes
}

/// The bytes of all the files of a walk, or `None` where a `u64` cannot
/// hold them.
pub fn sum_file_bytes(visits: &Vec<Visit>) -> (sum: Option<u64>)
    ensures
        match sum {
            Some(bytes) => bytes == total_file_bytes(visits.deep_view()),
            None => total_file_bytes(visits.deep_view()) > u64::MAX,
        },
{
    let ghost walk = visits.deep_view();
    let mut sum: u64 = 0;
    let mut i: usize = 0;
    assert(walk.take(0) =~= Seq::<VisitView>::empty());
    while i < visits.len()
        invariant
            i <= visits.len(),
            walk == visits.deep_view(),
            sum == total_file_bytes(walk.take(i as int)),
        decreases visits.len() - i,
    {
        assert(walk[i as int] == visits@[i as int]@);
        assert(walk.take(i + 1).drop_last() =~= walk.take(i as int));
        if let VisitKind::File { size } = visits[i].kind {
            if size > u64::MAX - sum {
                proof {
                    lemma_total_file_bytes_grows(walk, i + 1);
                }
                return None;
            }
            sum = sum + size;
        }
        i += 1;
    }
    assert(walk.take(i as int) =~= walk);
    Some(sum)
}

/// Why a scan gave no listing.
#[derive(Debug)]
pub enum ScanError {
    /// The walk met the file at `path` and could not read its size.
    MetadataReadFailure { path: String },
}

/// The path of the first file of a walk whose size could not be read.
pub open spec fn first_file_without_size(visits: Seq<VisitView>) -> Option<Seq<char>>
    decreases visits.len(),
{
    if visits.len() == 0 {
        None
    } else if visits[0].kind == VisitKind::FileWithoutSize {
        Some(visits[0].path)
    } else {
        first_file_without_size(visits.drop_first())
    }
}

/// The entry that stands in a listing for a file of a walk.
pub open spec fn file_item(visit: VisitView) -> ItemView {
    ItemView { path: visit.path, size: file_bytes(visit) as u64, is_directory: false }
}

/// A file that a listing with the threshold `min_size` holds.
pub open spec fn is_listed_file(visit: VisitView, min_size: u64) -> bool {
    visit.kind matches VisitKind::File { size } && size >= min_size
}

/// The entry that stands in a listing for a directory of the walk `walk`:
/// its size is that of all the files of the walk below it.
pub open spec fn directory_item(visit: VisitView, walk: Seq<VisitView>) -> ItemView {
    ItemView { path: visit.path, size: bytes_beneath(walk, visit.path) as u64, is_directory: true }
}

/// A directory that a listing with the threshold `min_size` holds: one
/// below the root of the walk, with that many bytes below it.
pub open spec fn is_listed_directory(visit: VisitView, walk: Seq<VisitView>, min_size: u64) -> bool {
    visit.kind == VisitKind::Directory && visit.depth >= 1 && bytes_beneath(walk, visit.path)
        >= min_size
}

/// The files of at least `min_size` bytes, in the order of the walk.
pub open spec fn listed_files(visits: Seq<VisitView>, min_size: u64) -> Seq<ItemView>
    decreases visits.len(),
{
    if visits.len() == 0 {
        Seq::empty()
    } else if is_listed_file(visits.last(), min_size) {
        listed_files(visits.drop_last(), min_size).push(file_item(visits.last()))
    } else {
        listed_files(visits.drop_last(), min_size)
    }
}

/// Those of the directories `visits` that lie below the root and hold at
/// least `min_size` bytes in the walk `walk`, in the order of `visits`.
pub open spec fn listed_directories(
    visits: Seq<VisitView>,
    walk: Seq<VisitView>,
    min_size: u64,
) -> Seq<ItemView>
    decreases visits.len(),
{
    if visits.len() == 0 {
        Seq::empty()
    } else if is_listed_directory(visits.last(), walk, min_size) {
        listed_directories(visits.drop_last(), walk, min_size).push(
            directory_item(visits.last(), walk),
        )
    } else {
        listed_directories(visits.drop_last(), walk, min_size)
    }
}

/// What a scan lists before it ranks: the files, where they are wanted,
/// then the directories, where they are wanted.
pub open spec fn listing(
    walk: Seq<VisitView>,
    include_files: bool,
    include_directories: bool,
    min_size: u64,
) -> Seq<ItemView> {
    (if include_files {
        listed_files(walk, min_size)
    } else {
        Seq::empty()
    }) + (if include_directories {
        listed_directories(walk, walk, min_size)
    } else {
        Seq::empty()
    })
}

/// The bytes of the files of a walk that have at least `min_size` bytes.
pub open spec fn listed_file_bytes(visits: Seq<VisitView>, min_size: u64) -> nat
    decreases visits.len(),
{
    if visits.len() == 0 {
        0
    } else {
        listed_file_bytes(visits.drop_last(), min_size) + if is_listed_file(
            visits.last(),
            min_size,
        ) {
            file_bytes(visits.last())
        } else {
            0
        }
    }
}

/// No item is a directory.
pub open spec fn holds_no_directory(items: Seq<ItemView>) -> bool {
    forall|i: int| 0 <= i < items.len() ==> !(#[trigger] items[i]).is_directory
}

/// No item is a file.
pub open spec fn holds_no_file(items: Seq<ItemView>) -> bool {
    forall|i: int| 0 <= i < items.len() ==> (#[trigger] items[i]).is_directory
}

/// Every item has at least `min_size` bytes.
pub open spec fn all_at_least(items: Seq<ItemView>, min_size: u64) -> bool {
    forall|i: int| 0 <= i < items.len() ==> (#[trigger] items[i]).size >= min_size
}

/// What was wanted of the walk and is not among `items` is smaller than
/// `min_size`: each such file, and each such directory below the root.
pub open spec fn leaves_out_only_smaller(
    walk: Seq<VisitView>,
    include_files: bool,
    include_directories: bool,
    min_size: u64,
    items: Seq<ItemView>,
) -> bool {
    &&& forall|k: int|
        0 <= k < walk.len() && include_files && (#[trigger] walk[k]).kind is File
            && !items.contains(file_item(walk[k])) ==> file_bytes(walk[k]) < min_size
    &&& forall|k: int|
        0 <= k < walk.len() && include_directories && (#[trigger] walk[k]).kind
            == VisitKind::Directory && walk[k].depth >= 1 && !items.contains(
            directory_item(walk[k], walk),
        ) ==> bytes_beneath(walk, walk[k].path) < min_size
}

/// A directory that no file lies below holds no bytes.
pub proof fn lemma_directory_without_files_is_empty(visits: Seq<VisitView>, directory: Seq<char>)
    requires
        forall|k: int|
            0 <= k < visits.len() && (#[trigger] visits[k]).kind is File ==> !lies_beneath(
                visits[k],
                directory,
            ),
    ensures
        bytes_beneath(visits, directory) == 0,
    decreases visits.len(),
{
    if visits.len() > 0 {
        let front = visits.drop_last();
        assert forall|k: int| 0 <= k < front.len() && (#[trigger] front[k]).kind is File implies !lies_beneath(
            front[k],
            directory,
        ) by {
            assert(front[k] == visits[k]);
        }
        lemma_directory_without_files_is_empty(front, directory);
        assert(visits.last() == visits[visits.len() - 1]);
    }
}

/// The listed files are the files of the walk that are large enough.
pub proof fn lemma_listed_files_members(visits: Seq<VisitView>, min_size: u64, item: ItemView)
    ensures
        listed_files(visits, min_size).contains(item) <==> exists|k: int|
            0 <= k < visits.len() && is_listed_file(#[trigger] visits[k], min_size) && item
                == file_item(visits[k]),
    decreases visits.len(),
{
    if visits.len() > 0 {
        let front = visits.drop_last();
        let last = visits.last();
        let listed = listed_files(front, min_size);
        lemma_listed_files_members(front, min_size, item);
        assert(visits[visits.len() - 1] == last);
        if listed_files(visits, min_size).contains(item) {
            if is_listed_file(last, min_size) && item == file_item(last) {
            } else {
                if is_listed_file(last, min_size) {
                    let all = listed.push(file_item(last));
                    let i = choose|i: int| 0 <= i < all.len() && all[i] == item;
                    assert(listed[i] == item);
                }
                let k = choose|k: int|
                    0 <= k < front.len() && is_listed_file(#[trigger] front[k], min_size) && item
                        == file_item(front[k]);
                assert(visits[k] == front[k]);
            }
        }
        if exists|k: int|
            0 <= k < visits.len() && is_listed_file(#[trigger] visits[k], min_size) && item
                == file_item(visits[k]) {
            let k = choose|k: int|
                0 <= k < visits.len() && is_listed_file(#[trigger] visits[k], min_size) && item
                    == file_item(visits[k]);
            if k < front.len() {
                assert(front[k] == visits[k]);
                let i = choose|i: int| 0 <= i < listed.len() && listed[i] == item;
                if is_listed_file(last, min_size) {
                    assert(listed.push(file_item(last))[i] == item);
                }
            } else {
                assert(listed.push(file_item(last))[listed.len() as int] == item);
            }
        }
    }
}

/// The listed directories are the directories below the root that hold
/// enough bytes.
pub proof fn lemma_listed_directories_members(
    visits: Seq<VisitView>,
    walk: Seq<VisitView>,
    min_size: u64,
    item: ItemView,
)
    ensures
        listed_directories(visits, walk, min_size).contains(item) <==> exists|k: int|
            0 <= k < visits.len() && is_listed_directory(#[trigger] visits[k], walk, min_size)
                && item == directory_item(visits[k], walk),
    decreases visits.len(),
{
    if visits.len() > 0 {
        let front = visits.drop_last();
        let last = visits.last();
        let listed = listed_directories(front, walk, min_size);
        lemma_listed_directories_members(front, walk, min_size, item);
        assert(visits[visits.len() - 1] == last);
        if listed_directories(visits, walk, min_size).contains(item) {
            if is_listed_directory(last, walk, min_size) && item == directory_item(last, walk) {
            } else {
                if is_listed_directory(last, walk, min_size) {
                    let all = listed.push(directory_item(last, walk));
                    let i = choose|i: int| 0 <= i < all.len() && all[i] == item;
                    assert(listed[i] == item);
                }
                let k = choose|k: int|
                    0 <= k < front.len() && is_listed_directory(#[trigger] front[k], walk, min_size)
                        && item == directory_item(front[k], walk);
                assert(visits[k] == front[k]);
            }
        }
        if exists|k: int|
            0 <= k < visits.len() && is_listed_directory(#[trigger] visits[k], walk, min_size)
                && item == directory_item(visits[k], walk) {
            let k = choose|k: int|
                0 <= k < visits.len() && is_listed_directory(#[trigger] visits[k], walk, min_size)
                    && item == directory_item(visits[k], walk);
            if k < front.len() {
                assert(front[k] == visits[k]);
                let i = choose|i: int| 0 <= i < listed.len() && listed[i] == item;
                if is_listed_directory(last, walk, min_size) {
                    assert(listed.push(directory_item(last, walk))[i] == item);
                }
            } else {
                assert(listed.push(directory_item(last, walk))[listed.len() as int] == item);
            }
        }
    }
}

/// What is in a listing: the files and the directories that were wanted.
pub proof fn lemma_listing_members(
    walk: Seq<VisitView>,
    include_files: bool,
    include_directories: bool,
    min_size: u64,
    item: ItemView,
)
    ensures
        listing(walk, include_files, include_directories, min_size).contains(item) <==> (
        include_files && listed_files(walk, min_size).contains(item)) || (include_directories
            && listed_directories(walk, walk, min_size).contains(item)),
{
    let files = if include_files {
        listed_files(walk, min_size)
    } else {
        Seq::empty()
    };
    let directories = if include_directories {
        listed_directories(walk, walk, min_size)
    } else {
        Seq::empty()
    };
    let all = files + directories;
    if all.contains(item) {
        let i = choose|i: int| 0 <= i < all.len() && all[i] == item;
        if i < files.len() {
            assert(files[i] == item);
        } else {
            assert(directories[i - files.len()] == item);
        }
    }
    if files.contains(item) {
        let i = choose|i: int| 0 <= i < files.len() && files[i] == item;
        assert(all[i] == item);
    }
    if directories.contains(item) {
        let i = choose|i: int| 0 <= i < directories.len() && directories[i] == item;
        assert(all[files.len() + i] == item);
    }
}

/// The files of a listing of files hold the bytes of the files that are
/// large enough; with no threshold, those of all the files of the walk.
pub proof fn lemma_listed_files_total(visits: Seq<VisitView>, min_size: u64)
    ensures
        file_total(listed_files(visits, min_size)) == listed_file_bytes(visits, min_size),
        listed_file_bytes(visits, min_size) <= total_file_bytes(visits),
        min_size == 0 ==> listed_file_bytes(visits, min_size) == total_file_bytes(visits),
    decreases visits.len(),
{
    if visits.len() > 0 {
        lemma_listed_files_total(visits.drop_last(), min_size);
        if is_listed_file(visits.last(), min_size) {
            let listed = listed_files(visits.drop_last(), min_size);
            assert(listed.push(file_item(visits.last())).drop_last() =~= listed);
        }
    }
}

/// A listing of directories holds no files.
pub proof fn lemma_listed_directories_total(
    visits: Seq<VisitView>,
    walk: Seq<VisitView>,
    min_size: u64,
)
    ensures
        file_total(listed_directories(visits, walk, min_size)) == 0,
    decreases visits.len(),
{
    if visits.len() > 0 {
        lemma_listed_directories_total(visits.drop_last(), walk, min_size);
        if is_listed_directory(visits.last(), walk, min_size) {
            let listed = listed_directories(visits.drop_last(), walk, min_size);
            assert(listed.push(directory_item(visits.last(), walk)).drop_last() =~= listed);
        }
    }
}

/// A scan that was asked for no directories lists none, whatever the walk.
pub proof fn lemma_files_only_lists_no_directory(
    walk: Seq<VisitView>,
    include_files: bool,
    min_size: u64,
    ranked: Seq<ItemView>,
)
    requires
        is_ranking(ranked, listing(walk, include_files, false, min_size)),
    ensures
        holds_no_directory(ranked),
{
    assert forall|i: int| 0 <= i < ranked.len() implies !(#[trigger] ranked[i]).is_directory by {
        let item = ranked[i];
        lemma_ranking_keeps_items(ranked, listing(walk, include_files, false, min_size), item);
        lemma_listing_members(walk, include_files, false, min_size, item);
        lemma_listed_files_members(walk, min_size, item);
    }
}

/// A scan that was asked for no files lists none, whatever the walk.
pub proof fn lemma_directories_only_lists_no_file(
    walk: Seq<VisitView>,
    include_directories: bool,
    min_size: u64,
    ranked: Seq<ItemView>,
)
    requires
        is_ranking(ranked, listing(walk, false, include_directories, min_size)),
    ensures
        holds_no_file(ranked),
{
    assert forall|i: int| 0 <= i < ranked.len() implies (#[trigger] ranked[i]).is_directory by {
        let item = ranked[i];
        lemma_ranking_keeps_items(ranked, listing(walk, false, include_directories, min_size), item);
        lemma_listing_members(walk, false, include_directories, min_size, item);
        lemma_listed_directories_members(walk, walk, min_size, item);
    }
}

/// The threshold decides alone what a scan leaves out of what was wanted:
/// every entry that it lists has at least `min_size` bytes, and a file or
/// a directory below the root that it does not list has fewer.
pub proof fn lemma_listing_meets_threshold(
    walk: Seq<VisitView>,
    include_files: bool,
    include_directories: bool,
    min_size: u64,
    ranked: Seq<ItemView>,
)
    requires
        total_file_bytes(walk) <= u64::MAX,
        is_ranking(ranked, listing(walk, include_files, include_directories, min_size)),
    ensures
        all_at_least(ranked, min_size),
        leaves_out_only_smaller(walk, include_files, include_directories, min_size, ranked),
{
    let listed = listing(walk, include_files, include_directories, min_size);
    assert forall|i: int| 0 <= i < ranked.len() implies (#[trigger] ranked[i]).size >= min_size by {
        let item = ranked[i];
        lemma_ranking_keeps_items(ranked, listed, item);
        lemma_listing_members(walk, include_files, include_directories, min_size, item);
        lemma_listed_files_members(walk, min_size, item);
        lemma_listed_directories_members(walk, walk, min_size, item);
        if include_directories && listed_directories(walk, walk, min_size).contains(item) {
            let k = choose|k: int|
                0 <= k < walk.len() && is_listed_directory(#[trigger] walk[k], walk, min_size)
                    && item == directory_item(walk[k], walk);
            lemma_bytes_beneath_bounded(walk, walk[k].path);
        }
    }
    assert forall|k: int|
        0 <= k < walk.len() && include_files && (#[trigger] walk[k]).kind is File
            && !ranked.contains(file_item(walk[k])) implies file_bytes(walk[k]) < min_size by {
        let item = file_item(walk[k]);
        lemma_ranking_keeps_items(ranked, listed, item);
        lemma_listing_members(walk, include_files, include_directories, min_size, item);
        lemma_listed_files_members(walk, min_size, item);
    }
    assert forall|k: int|
        0 <= k < walk.len() && include_directories && (#[trigger] walk[k]).kind
            == VisitKind::Directory && walk[k].depth >= 1 && !ranked.contains(
            directory_item(walk[k], walk),
        ) implies bytes_beneath(walk, walk[k].path) < min_size by {
        let item = directory_item(walk[k], walk);
        lemma_ranking_keeps_items(ranked, listed, item);
        lemma_listing_members(walk, include_files, include_directories, min_size, item);
        lemma_listed_directories_members(walk, walk, min_size, item);
    }
}

/// The bytes of the files of a listing count each file once, with the
/// directories listed or not: they are the bytes of the files that are
/// large enough where files are listed, and none where they are not.
pub proof fn lemma_total_counts_each_file_once(
    walk: Seq<VisitView>,
    include_files: bool,
    include_directories: bool,
    min_size: u64,
    ranked: Seq<ItemView>,
)
    requires
        is_ranking(ranked, listing(walk, include_files, include_directories, min_size)),
    ensures
        file_total(ranked) == if include_files {
            listed_file_bytes(walk, min_size)
        } else {
            0
        },
        file_total(ranked) <= total_file_bytes(walk),
        include_files && min_size == 0 ==> file_total(ranked) == total_file_bytes(walk),
{
    let files = if include_files {
        listed_files(walk, min_size)
    } else {
        Seq::empty()
    };
    let directories = if include_directories {
        listed_directories(walk, walk, min_size)
    } else {
        Seq::empty()
    };
    lemma_ranking_keeps_total(ranked, files + directories);
    lemma_file_total_concat(files, directories);
    lemma_listed_files_total(walk, min_size);
    lemma_listed_directories_total(walk, walk, min_size);
}

fn find_file_without_size(visits: &Vec<Visit>) -> (found: Option<String>)
    ensures
        match found {
            Some(path) => first_file_without_size(visits.deep_view()) == Some(path@),
            None => first_file_without_size(visits.deep_view()) is None,
        },
{
    let ghost walk = visits.deep_view();
    let mut i: usize = 0;
    assert(walk.skip(0) =~= walk);
    while i < visits.len()
        invariant
            i <= visits.len(),
            walk == visits.deep_view(),
            first_file_without_size(walk) == first_file_without_size(walk.skip(i as int)),
        decreases visits.len() - i,
    {
        assert(walk.skip(i as int)[0] == visits@[i as int]@);
        assert(walk.skip(i as int).drop_first() =~= walk.skip(i + 1));
        if let VisitKind::FileWithoutSize = visits[i].kind {
            return Some(visits[i].path.clone());
        }
        i += 1;
    }
    None
}

fn push_files(visits: &Vec<Visit>, min_size: u64, items: &mut Vec<Item>)
    ensures
        final(items).deep_view() == old(items).deep_view() + listed_files(
            visits.deep_view(),
            min_size,
        ),
{
    let ghost walk = visits.deep_view();
    let ghost before = items.deep_view();
    let mut i: usize = 0;
    assert(walk.take(0) =~= Seq::<VisitView>::empty());
    assert(items.deep_view() =~= before + listed_files(walk.take(0), min_size));
    while i < visits.len()
        invariant
            i <= visits.len(),
            walk == visits.deep_view(),
            items.deep_view() =~= before + listed_files(walk.take(i as int), min_size),
        decreases visits.len() - i,
    {
        let ghost listed = items.deep_view();
        assert(walk[i as int] == visits@[i as int]@);
        assert(walk.take(i + 1).drop_last() =~= walk.take(i as int));
        if let VisitKind::File { size } = visits[i].kind {
            if size >= min_size {
                let item = Item { path: visits[i].path.clone(), size, is_directory: false };
                assert(item@ == file_item(walk[i as int]));
                items.push(item);
                assert(items.deep_view() =~= listed.push(file_item(walk[i as int])));
            }
        }
        i += 1;
    }
    assert(walk.take(i as int) =~= walk);
}

fn push_directories(
    visits: &Vec<Visit>,
    sizes: &StringHashMap<u64>,
    min_size: u64,
    items: &mut Vec<Item>,
)
    requires
        forall|directory: Seq<char>| #[trigger]
            recorded(sizes@, directory) == bytes_beneath(visits.deep_view(), directory),
    ensures
        final(items).deep_view() == old(items).deep_view() + listed_directories(
            visits.deep_view(),
            visits.deep_view(),
            min_size,
        ),
{
    let ghost walk = visits.deep_view();
    let ghost before = items.deep_view();
    let mut i: usize = 0;
    assert(walk.take(0) =~= Seq::<VisitView>::empty());
    assert(items.deep_view() =~= before + listed_directories(walk.take(0), walk, min_size));
    while i < visits.len()
        invariant
            i <= visits.len(),
            walk == visits.deep_view(),
            forall|directory: Seq<char>| #[trigger]
                recorded(sizes@, directory) == bytes_beneath(walk, directory),
            items.deep_view() =~= before + listed_directories(walk.take(i as int), walk, min_size),
        decreases visits.len() - i,
    {
        let ghost listed = items.deep_view();
        assert(walk[i as int] == visits@[i as int]@);
        assert(walk.take(i + 1).drop_last() =~= walk.take(i as int));
        if let VisitKind::Directory = visits[i].kind {
            if visits[i].depth >= 1 {
                let size = recorded_size(sizes, visits[i].path.as_str());
                if size >= min_size {
                    let item = Item { path: visits[i].path.clone(), size, is_directory: true };
                    assert(item@ == directory_item(walk[i as int], walk));
                    items.push(item);
                    assert(items.deep_view() =~= listed.push(directory_item(walk[i as int], walk)));
                }
            }
        }
        i += 1;
    }
    assert(walk.take(i as int) =~= walk);
}

/// Lists what a walk met, largest first: each file, where files are
/// wanted, and each directory below the root with the bytes of all the
/// files below it, where directories are wanted, leaving out what is
/// smaller than `min_size`. Entries of one size stand files first, and
/// otherwise in the order of the walk. A file whose size could not be
/// read fails the scan; what is neither a file nor a directory, and what
/// the walk could not read, is passed over.
pub fn scan_directory(
    visits: &Vec<Visit>,
    include_files: bool,
    include_directories: bool,
    min_size: u64,
) -> (result: Result<Vec<Item>, ScanError>)
    requires
        total_file_bytes(visits.deep_view()) <= u64::MAX,
    ensures
        match result {
            Ok(items) => {
                &&& first_file_without_size(visits.deep_view()) is None
                &&& is_ranking(
                    items.deep_view(),
                    listing(visits.deep_view(), include_files, include_directories, min_size),
                )
                &&& items.deep_view() == ranking_of(
                    listing(visits.deep_view(), include_files, include_directories, min_size),
                )
                &&& is_descending(items.deep_view())
                &&& !include_directories ==> holds_no_directory(items.deep_view())
                &&& !include_files ==> holds_no_file(items.deep_view())
                &&& all_at_least(items.deep_view(), min_size)
                &&& leaves_out_only_smaller(
                    visits.deep_view(),
                    include_files,
                    include_directories,
                    min_size,
                    items.deep_view(),
                )
                &&& file_total(items.deep_view()) == if include_files {
                    listed_file_bytes(visits.deep_view(), min_size)
                } else {
                    0
                }
                &&& file_total(items.deep_view()) <= total_file_bytes(visits.deep_view())
            },
            Err(ScanError::MetadataReadFailure { path }) => first_file_without_size(
                visits.deep_view(),
            ) == Some(path@),
        },
{
    if let Some(path) = find_file_without_size(visits) {
        return Err(ScanError::MetadataReadFailure { path });
    }
    let sizes = directory_sizes(visits);
    let mut items: Vec<Item> = Vec::new();
    assert(items.deep_view() =~= Seq::<ItemView>::empty());
    if include_files {
        push_files(visits, min_size, &mut items);
    }
    let ghost files = items.deep_view();
    if include_directories {
        push_directories(visits, &sizes, min_size, &mut items);
    }
    assert(items.deep_view() =~= listing(
        visits.deep_view(),
        include_files,
        include_directories,
        min_size,
    ));
    let ranked = sort_by_size(&items);
    proof {
        let walk = visits.deep_view();
        let listed = ranked.deep_view();
        lemma_total_counts_each_file_once(walk, include_files, include_directories, min_size, listed);
        lemma_listing_meets_threshold(walk, include_files, include_directories, min_size, listed);
        if !include_directories {
            lemma_files_only_lists_no_directory(walk, include_files, min_size, listed);
        }
        if !include_files {
            lemma_directories_only_lists_no_file(walk, include_directories, min_size, listed);
        }
    }
    Ok(ranked)
}

} // verus!
