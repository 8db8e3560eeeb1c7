//! File-change classification for the library watcher. The watcher itself
//! listens to the platform's notification stream with the caller; the rule
//! that turns a raw notification into a library event is here.

use vstd::prelude::*;
use crate::scanner::{has_extension_ci, path_has_extension};

verus! {

/// What happened to a set of book files.
pub enum WatcherEvent {
    FileCreated(Vec<String>),
    FileModified(Vec<String>),
    FileDeleted(Vec<String>),
}

/// The category of a raw file-system notification.
#[derive(Debug, Clone, Copy, PartialEq, Eq, Structural)]
pub enum EventCategory {
    Created,
    Modified,
    Removed,
    Other,
}

/// Whether a path names a book file (the epub extension, ignoring ASCII
/// case).
pub open spec fn is_epub_path(path: Seq<char>) -> bool {
    has_extension_ci(path, "epub"@)
}

/// Check whether a path names a book file.
pub fn is_epub_file(path: &str) -> (r: bool)
    ensures
        r == is_epub_path(path@),
{
    path_has_extension(path, "epub")
}

/// The book-file paths of a list, in order.
pub open spec fn epub_paths_of(paths: Seq<Seq<char>>) -> Seq<Seq<char>>
    decreases paths.len(),
{
    if paths.len() == 0 {
        Seq::<Seq<char>>::empty()
    } else {
        let rest = epub_paths_of(paths.drop_last());
        if is_epub_path(paths.last()) {
            rest.push(paths.last())
        } else {
            rest
        }
    }
}

/// Turn a raw notification into a library event: keep only paths that name
/// book files; nothing when none remains or the category is not tracked.
pub fn classify_event(category: EventCategory, paths: Vec<String>) -> (r: Option<WatcherEvent>)
    ensures
        match r {
            Some(WatcherEvent::FileCreated(kept)) => category == EventCategory::Created
                && kept@.map_values(|p: String| p@) == epub_paths_of(
                paths@.map_values(|p: String| p@),
            ) && kept@.len() > 0,
            Some(WatcherEvent::FileModified(kept)) => category == EventCategory::Modified
                && kept@.map_values(|p: String| p@) == epub_paths_of(
                paths@.map_values(|p: String| p@),
            ) && kept@.len() > 0,
            Some(WatcherEvent::FileDeleted(kept)) => category == EventCategory::Removed
                && kept@.map_values(|p: String| p@) == epub_paths_of(
                paths@.map_values(|p: String| p@),
            ) && kept@.len() > 0,
            None => category == EventCategory::Other || epub_paths_of(
                paths@.map_values(|p: String| p@),
            ).len() == 0,
        },
{
    let ghost views = paths@.map_values(|p: String| p@);
    let mut kept: Vec<String> = Vec::new();
    let mut i: usize = 0;
    while i < paths.len()
        invariant
            views == paths@.map_values(|p: String| p@),
            0 <= i <= paths@.len(),
            kept@.map_values(|p: String| p@) == epub_paths_of(views.take(i as int)),
        decreases paths@.len() - i,
    {
        let p = &paths[i];
        proof {
            assert(views.take(i as int + 1).drop_last() =~= views.take(i as int));
            assert(views.take(i as int + 1).last() == views[i as int]);
        }
        if is_epub_file(p.as_str()) {
            kept.push(p.clone());
            proof {
                assert(kept@.map_values(|p2: String| p2@) =~= epub_paths_of(
                    views.take(i as int + 1),
                ));
            }
        }
        i = i + 1;
    }
    proof {
        assert(views.take(paths@.len() as int) =~= views);
    }
    if kept.len() == 0 {
        return None;
    }
    match category {
        EventCategory::Created => Some(WatcherEvent::FileCreated(kept)),
        EventCategory::Modified => Some(WatcherEvent::FileModified(kept)),
        EventCategory::Removed => Some(WatcherEvent::FileDeleted(kept)),
        EventCategory::Other => None,
    }
}

} // verus!
