//! Picking the files that count out of what a directory traversal reported.
//!
//! A traversal is a sequence of events, in the order in which they were
//! reported: an entry that was found, with its depth below the root, or a
//! failure to read something at some depth. The root itself has depth 0, its
//! direct children depth 1.

use crate::extension::{
    extension_of, lemma_normalized_membership, lowercase, lowercase_all, matches_normalized,
    normalize_extensions, path_matches, texts,
};
use vstd::prelude::*;

verus! {

/// What kind of thing a directory entry is. Only regular files are ever
/// counted; links and special files are `Other`.
#[derive(Clone, Copy, Debug, PartialEq, Eq, Structural)]
pub enum EntryKind {
    File,
    Directory,
    Other,
}

/// One entry that a traversal found.
#[derive(Clone, Debug)]
pub struct Entry {
    /// The entry's path, as the traversal names it.
    pub path: String,
    /// How far below the root the entry lies; the root itself is at 0.
    pub depth: usize,
    /// What the entry is, links not followed.
    pub kind: EntryKind,
}

/// One thing a traversal reported.
#[derive(Clone, Debug)]
pub enum WalkEvent {
    /// An entry was found.
    Entry(Entry),
    /// Something at this depth could not be read.
    Unreadable { depth: usize },
}

/// Why a traversal as a whole is turned down.
#[derive(Clone, Copy, Debug, PartialEq, Eq, Structural)]
pub enum FindError {
    /// The root is missing or cannot be read.
    RootUnreadable,
    /// The root is there, but it is no directory.
    RootNotDirectory,
}

impl WalkEvent {
    /// The fault that makes the whole traversal fail, where the event is one:
    /// a failure at the root, or a root that is no directory. Failures below
    /// the root are no fault; the entry concerned is passed over.
    pub open spec fn fault(&self) -> Option<FindError> {
        match self {
            WalkEvent::Unreadable { depth } => if *depth == 0 {
                Some(FindError::RootUnreadable)
            } else {
                None
            },
            WalkEvent::Entry(entry) => if entry.depth == 0 && entry.kind != EntryKind::Directory {
                Some(FindError::RootNotDirectory)
            } else {
                None
            },
        }
    }

    /// Whether the event is a regular file within reach of the traversal:
    /// anywhere below the root when `recursive`, a direct child of the root
    /// otherwise.
    pub open spec fn file_in_reach(&self, recursive: bool) -> bool {
        &&& self matches WalkEvent::Entry(entry)
        &&& entry.kind == EntryKind::File
        &&& 1 <= entry.depth
        &&& recursive || entry.depth == 1
    }

    /// Whether the event is a file that counts: a regular file within reach
    /// whose extension is listed.
    pub open spec fn counts(&self, extensions: Seq<Seq<char>>, recursive: bool) -> bool {
        &&& self.file_in_reach(recursive)
        &&& path_matches(self.path(), extensions)
    }

    /// The path of the entry that the event reports; the empty text for a
    /// failure, which names none.
    pub open spec fn path(&self) -> Seq<char> {
        match self {
            WalkEvent::Entry(entry) => entry.path@,
            WalkEvent::Unreadable { .. } => Seq::empty(),
        }
    }
}

/// The fault of the earliest event of a listing that has one.
pub open spec fn first_fault(listing: Seq<WalkEvent>) -> Option<FindError>
    decreases listing.len(),
{
    if listing.len() == 0 {
        None
    } else {
        match first_fault(listing.drop_last()) {
            Some(fault) => Some(fault),
            None => listing.last().fault(),
        }
    }
}

/// The paths of the files of a listing that count, in the order of the
/// listing.
pub open spec fn matching_paths(
    listing: Seq<WalkEvent>,
    extensions: Seq<Seq<char>>,
    recursive: bool,
) -> Seq<Seq<char>> {
    listing.filter(|event: WalkEvent| event.counts(extensions, recursive)).map_values(
        |event: WalkEvent| event.path(),
    )
}

/// Whether `path` is the path of a file of the listing that counts.
pub open spec fn counted_in(
    listing: Seq<WalkEvent>,
    path: Seq<char>,
    extensions: Seq<Seq<char>>,
    recursive: bool,
) -> bool {
    exists|i: int|
        0 <= i < listing.len() && (#[trigger] listing[i]).counts(extensions, recursive)
            && listing[i].path() == path
}

/// Whether `path` is the path of an entry that the listing reports as a
/// direct child of the root.
pub open spec fn child_of_root(listing: Seq<WalkEvent>, path: Seq<char>) -> bool {
    exists|i: int|
        0 <= i < listing.len() && (#[trigger] listing[i]) is Entry && listing[i]->Entry_0.depth
            == 1 && listing[i].path() == path
}

/// What a search over a listing comes to: the fault of the traversal if it
/// has one, the paths of the files that count otherwise.
pub open spec fn search_outcome(
    listing: Seq<WalkEvent>,
    extensions: Seq<Seq<char>>,
    recursive: bool,
) -> Result<Seq<Seq<char>>, FindError> {
    match first_fault(listing) {
        Some(fault) => Err(fault),
        None => Ok(matching_paths(listing, extensions, recursive)),
    }
}

/// How deep a traversal has to go: one level for a search that is not
/// recursive, without limit for one that is.
pub fn depth_limit(recursive: bool) -> (limit: Option<usize>)
    ensures
        limit == if recursive {
            None::<usize>
        } else {
            Some(1usize)
        },
{
    if recursive {
        None
    } else {
        Some(1)
    }
}

/// The fault of one event, if it is one.
pub fn event_fault(event: &WalkEvent) -> (fault: Option<FindError>)
    ensures
        fault == event.fault(),
{
    match event {
        WalkEvent::Unreadable { depth } => {
            if *depth == 0 {
                Some(FindError::RootUnreadable)
            } else {
                None
            }
        },
        WalkEvent::Entry(entry) => {
            let is_directory: bool = match entry.kind {
                EntryKind::Directory => true,
                _ => false,
            };
            if entry.depth == 0 && !is_directory {
                Some(FindError::RootNotDirectory)
            } else {
                None
            }
        },
    }
}

/// Whether one event is a file that counts for a set of extensions that is
/// already in lowercase.
fn event_counts(event: &WalkEvent, lowered: &[String], recursive: bool) -> (counts: bool)
    ensures
        counts == (event.file_in_reach(recursive) && match extension_of(event.path()) {
            Some(extension) => texts(lowered@).contains(lowercase(extension)),
            None => false,
        }),
{
    match event {
        WalkEvent::Unreadable { .. } => false,
        WalkEvent::Entry(entry) => {
            let is_file: bool = match entry.kind {
                EntryKind::File => true,
                _ => false,
            };
            is_file && 1 <= entry.depth && (recursive || entry.depth == 1) && matches_normalized(
                entry.path.as_str(),
                lowered,
            )
        },
    }
}

/// Finds the files that count among what a traversal reported.
///
/// `listing` holds the events of a traversal rooted at a directory, in the
/// order in which they were reported. The search fails where the root is
/// missing, unreadable or no directory, with the fault of the earliest such
/// event. Otherwise it returns the paths of the regular files whose
/// extension is listed in `extensions`, case set aside, in the order of the
/// listing: the files at every depth below the root when `recursive`, the
/// direct children of the root otherwise. Whatever could not be read below
/// the root is passed over. With no extensions given, no file counts.
pub fn find_files(listing: &[WalkEvent], extensions: &[String], recursive: bool) -> (found: Result<
    Vec<String>,
    FindError,
>)
    ensures
        match found {
            Ok(paths) => search_outcome(listing@, texts(extensions@), recursive) == Ok::<
                Seq<Seq<char>>,
                FindError,
            >(texts(paths@)),
            Err(fault) => search_outcome(listing@, texts(extensions@), recursive) == Err::<
                Seq<Seq<char>>,
                FindError,
            >(fault),
        },
        found is Err <==> exists|i: int|
            0 <= i < listing@.len() && (#[trigger] listing@[i]).fault() is Some,
        found matches Ok(paths) ==> forall|k: int|
            0 <= k < paths@.len() ==> counted_in(
                listing@,
                (#[trigger] paths@[k])@,
                texts(extensions@),
                recursive,
            ),
        found matches Ok(paths) ==> forall|i: int|
            0 <= i < listing@.len() && (#[trigger] listing@[i]).counts(
                texts(extensions@),
                recursive,
            ) ==> texts(paths@).contains(listing@[i].path()),
        found matches Ok(paths) ==> !recursive ==> forall|k: int|
            0 <= k < paths@.len() ==> child_of_root(listing@, (#[trigger] paths@[k])@),
{
    let lowered: Vec<String> = normalize_extensions(extensions);
    let mut paths: Vec<String> = Vec::new();
    let mut i: usize = 0;
    while i < listing.len()
        invariant
            i <= listing@.len(),
            texts(lowered@) == lowercase_all(texts(extensions@)),
            first_fault(listing@.take(i as int)) is None,
            texts(paths@) == matching_paths(listing@.take(i as int), texts(extensions@), recursive),
        decreases listing@.len() - i,
    {
        let ghost seen = listing@.take(i as int);
        let ghost next = listing@.take(i + 1);
        assert(next.drop_last() =~= seen);
        assert(next.last() == listing@[i as int]);
        match event_fault(&listing[i]) {
            Some(fault) => {
                proof {
                    lemma_first_fault_extends(listing@, i + 1);
                    lemma_fault_exists(listing@);
                }
                return Err(fault);
            },
            None => {},
        }
        let ghost before = paths@;
        let counts: bool = event_counts(&listing[i], lowered.as_slice(), recursive);
        proof {
            lemma_normalized_membership(listing@[i as int].path(), texts(extensions@));
            lemma_matching_paths_step(next, texts(extensions@), recursive);
        }
        if counts {
            if let WalkEvent::Entry(entry) = &listing[i] {
                paths.push(entry.path.clone());
                assert(texts(paths@) =~= texts(before).push(listing@[i as int].path()));
            }
        }
        i += 1;
    }
    proof {
        assert(listing@.take(i as int) =~= listing@);
        lemma_fault_exists(listing@);
        lemma_matching_paths_exact(listing@, texts(extensions@), recursive);
        assert forall|k: int| 0 <= k < paths@.len() implies counted_in(
            listing@,
            (#[trigger] paths@[k])@,
            texts(extensions@),
            recursive,
        ) by {
            assert(texts(paths@)[k] == paths@[k]@);
        }
    }
    Ok(paths)
}

/// The paths that count in a listing are those that count without its last
/// event, followed by the path of that event if it counts.
pub proof fn lemma_matching_paths_step(
    listing: Seq<WalkEvent>,
    extensions: Seq<Seq<char>>,
    recursive: bool,
)
    requires
        listing.len() > 0,
    ensures
        matching_paths(listing, extensions, recursive) == if listing.last().counts(
            extensions,
            recursive,
        ) {
            matching_paths(listing.drop_last(), extensions, recursive).push(listing.last().path())
        } else {
            matching_paths(listing.drop_last(), extensions, recursive)
        },
{
    let counts = |event: WalkEvent| event.counts(extensions, recursive);
    let path = |event: WalkEvent| event.path();
    let rest = listing.drop_last().filter(counts);
    assert(listing.drop_last().push(listing.last()) =~= listing);
    listing.drop_last().lemma_filter_push(listing.last(), counts);
    if counts(listing.last()) {
        assert(rest.push(listing.last()).map_values(path) =~= rest.map_values(path).push(
            listing.last().path(),
        ));
    }
}

/// A fault found among the first events of a listing is the fault of the
/// whole listing.
pub proof fn lemma_first_fault_extends(listing: Seq<WalkEvent>, upto: int)
    requires
        0 <= upto <= listing.len(),
        first_fault(listing.take(upto)) is Some,
    ensures
        first_fault(listing) == first_fault(listing.take(upto)),
    decreases listing.len() - upto,
{
    if upto < listing.len() {
        assert(listing.take(upto + 1).drop_last() =~= listing.take(upto));
        lemma_first_fault_extends(listing, upto + 1);
    } else {
        assert(listing.take(upto) =~= listing);
    }
}

/// A listing has a fault exactly when one of its events is one.
pub proof fn lemma_fault_exists(listing: Seq<WalkEvent>)
    ensures
        first_fault(listing) is Some <==> exists|i: int|
            0 <= i < listing.len() && (#[trigger] listing[i]).fault() is Some,
    decreases listing.len(),
{
    if listing.len() > 0 {
        let rest = listing.drop_last();
        lemma_fault_exists(rest);
        if first_fault(listing) is Some {
            if first_fault(rest) is Some {
                let i = choose|i: int| 0 <= i < rest.len() && (#[trigger] rest[i]).fault() is Some;
                assert(listing[i].fault() is Some);
            } else {
                assert(listing[listing.len() - 1].fault() is Some);
            }
        }
        if exists|i: int| 0 <= i < listing.len() && (#[trigger] listing[i]).fault() is Some {
            let i = choose|i: int|
                0 <= i < listing.len() && (#[trigger] listing[i]).fault() is Some;
            if i < rest.len() {
                assert(rest[i].fault() is Some);
            }
        }
    }
}

/// The paths that count in a listing are the paths of its events that
/// count: each of them is among the paths, and each path belongs to one of
/// them. Where the search is not recursive, each belongs to a direct child
/// of the root.
pub proof fn lemma_matching_paths_exact(
    listing: Seq<WalkEvent>,
    extensions: Seq<Seq<char>>,
    recursive: bool,
)
    ensures
        forall|i: int|
            0 <= i < listing.len() && (#[trigger] listing[i]).counts(extensions, recursive)
                ==> matching_paths(listing, extensions, recursive).contains(listing[i].path()),
        forall|k: int|
            0 <= k < matching_paths(listing, extensions, recursive).len() ==> counted_in(
                listing,
                #[trigger] matching_paths(listing, extensions, recursive)[k],
                extensions,
                recursive,
            ),
        !recursive ==> forall|k: int|
            0 <= k < matching_paths(listing, extensions, recursive).len() ==> child_of_root(
                listing,
                #[trigger] matching_paths(listing, extensions, recursive)[k],
            ),
    decreases listing.len(),
{
    let all = matching_paths(listing, extensions, recursive);
    if listing.len() > 0 {
        let rest = listing.drop_last();
        let fewer = matching_paths(rest, extensions, recursive);
        lemma_matching_paths_exact(rest, extensions, recursive);
        lemma_matching_paths_step(listing, extensions, recursive);
        assert forall|i: int|
            0 <= i < listing.len() && (#[trigger] listing[i]).counts(
                extensions,
                recursive,
            ) implies all.contains(listing[i].path()) by {
            if i < rest.len() {
                assert(rest[i].counts(extensions, recursive));
                let k = choose|k: int| 0 <= k < fewer.len() && fewer[k] == rest[i].path();
                assert(all[k] == listing[i].path());
            } else {
                assert(all[all.len() - 1] == listing[i].path());
            }
        }
        assert forall|k: int| 0 <= k < all.len() implies counted_in(
            listing,
            #[trigger] all[k],
            extensions,
            recursive,
        ) by {
            let i = if k < fewer.len() {
                assert(counted_in(rest, fewer[k], extensions, recursive));
                choose|i: int|
                    0 <= i < rest.len() && (#[trigger] rest[i]).counts(extensions, recursive)
                        && rest[i].path() == fewer[k]
            } else {
                listing.len() - 1
            };
            assert(listing[i].counts(extensions, recursive) && listing[i].path() == all[k]);
        }
        if !recursive {
            assert forall|k: int| 0 <= k < all.len() implies child_of_root(
                listing,
                #[trigger] all[k],
            ) by {
                assert(counted_in(listing, all[k], extensions, recursive));
                let i = choose|i: int|
                    0 <= i < listing.len() && (#[trigger] listing[i]).counts(
                        extensions,
                        recursive,
                    ) && listing[i].path() == all[k];
                assert(listing[i] is Entry && listing[i]->Entry_0.depth == 1);
            }
        }
    } else {
        assert(all =~= Seq::<Seq<char>>::empty());
    }
}

/// A search that is not recursive returns no path from a nested directory:
/// each path it returns belongs to a direct child of the root.
pub proof fn lemma_flat_search_stays_at_root(listing: Seq<WalkEvent>, extensions: Seq<Seq<char>>)
    ensures
        search_outcome(listing, extensions, false) matches Ok(paths) ==> forall|k: int|
            0 <= k < paths.len() ==> child_of_root(listing, #[trigger] paths[k]),
{
    lemma_matching_paths_exact(listing, extensions, false);
}

/// A recursive search that succeeds returns every regular file below the
/// root whose extension is listed, at whatever depth, and nothing else.
pub proof fn lemma_recursive_search_is_exact(listing: Seq<WalkEvent>, extensions: Seq<Seq<char>>)
    ensures
        search_outcome(listing, extensions, true) matches Ok(paths) ==> {
            &&& forall|i: int|
                0 <= i < listing.len() && (#[trigger] listing[i]).file_in_reach(true)
                    && path_matches(listing[i].path(), extensions) ==> paths.contains(
                    listing[i].path(),
                )
            &&& forall|k: int|
                0 <= k < paths.len() ==> counted_in(listing, #[trigger] paths[k], extensions, true)
        },
{
    lemma_matching_paths_exact(listing, extensions, true);
    if search_outcome(listing, extensions, true) is Ok {
        let paths = matching_paths(listing, extensions, true);
        assert forall|i: int|
            0 <= i < listing.len() && (#[trigger] listing[i]).file_in_reach(true) && path_matches(
                listing[i].path(),
                extensions,
            ) implies paths.contains(listing[i].path()) by {
            assert(listing[i].counts(extensions, true));
        }
    }
}

/// A root directory without entries holds no file that counts, whatever the
/// extensions and whether or not the search is recursive.
pub proof fn lemma_empty_directory_has_no_files(
    root: Entry,
    extensions: Seq<Seq<char>>,
    recursive: bool,
)
    requires
        root.depth == 0,
        root.kind == EntryKind::Directory,
    ensures
        search_outcome(seq![WalkEvent::Entry(root)], extensions, recursive) == Ok::<
            Seq<Seq<char>>,
            FindError,
        >(Seq::empty()),
{
    let listing = seq![WalkEvent::Entry(root)];
    assert(listing.drop_last() =~= Seq::<WalkEvent>::empty());
    assert(first_fault(listing.drop_last()) is None);
    lemma_matching_paths_step(listing, extensions, recursive);
    assert(matching_paths(listing.drop_last(), extensions, recursive) =~= Seq::<
        Seq<char>,
    >::empty());
}

/// A traversal that failed at its root, as one of a missing directory does,
/// makes the search fail, whatever else it reported.
pub proof fn lemma_unreadable_root_is_fatal(
    listing: Seq<WalkEvent>,
    failure: int,
    extensions: Seq<Seq<char>>,
    recursive: bool,
)
    requires
        0 <= failure < listing.len(),
        listing[failure] == (WalkEvent::Unreadable { depth: 0 }),
    ensures
        search_outcome(listing, extensions, recursive) is Err,
{
    lemma_fault_exists(listing);
    assert(listing[failure].fault() is Some);
}

} // verus!
