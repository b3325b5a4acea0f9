use vstd::prelude::*;

verus! {

/// How reading the cache file went.
#[derive(Clone, Copy, PartialEq, Eq, Structural, Debug)]
pub enum CacheRead {
    /// The file held a snapshot.
    Found,
    /// There is no file.
    Missing,
    /// The file could not be read or decoded.
    Unreadable,
}

/// What the loader reports after each step.
#[derive(Clone, Copy, PartialEq, Eq, Structural, Debug)]
pub enum LoadEvent {
    /// Loading begins, with the caller's choices and whether a cache path is known.
    Start { no_cache: bool, force: bool, has_path: bool },
    /// The cache file was read.
    CacheRead(CacheRead),
    /// The freshness probe came back; `not_modified` only on that exact answer.
    Probed { not_modified: bool },
    /// A fresh copy was downloaded, to be saved or not as the download step said.
    Downloaded { save: bool },
    /// The snapshot was written to the cache file, or writing failed.
    Saved { ok: bool },
}

/// What the loader does next.
#[derive(Clone, Copy, PartialEq, Eq, Structural, Debug)]
pub enum LoadAction {
    /// Download the database; `save` says whether the result goes to the cache file.
    Download { save: bool },
    /// Read the cache file.
    ReadCache,
    /// Ask the server whether the cached snapshot is still current.
    Probe,
    /// Use the cached snapshot as it is, and write nothing.
    UseCached,
    /// Write the downloaded snapshot to the cache file.
    Save,
    /// Remove the partly written cache file, so that no torn file stays behind.
    DiscardPartialFile,
    /// Nothing more to do.
    Done,
}

/// The refresh policy.
pub open spec fn spec_next_action(e: LoadEvent) -> LoadAction {
    match e {
        LoadEvent::Start { no_cache, force, has_path } => {
            if no_cache || !has_path {
                LoadAction::Download { save: false }
            } else if force {
                LoadAction::Download { save: true }
            } else {
                LoadAction::ReadCache
            }
        },
        LoadEvent::CacheRead(CacheRead::Found) => LoadAction::Probe,
        LoadEvent::CacheRead(_) => LoadAction::Download { save: true },
        LoadEvent::Probed { not_modified } => {
            if not_modified {
                LoadAction::UseCached
            } else {
                LoadAction::Download { save: true }
            }
        },
        LoadEvent::Downloaded { save } => {
            if save {
                LoadAction::Save
            } else {
                LoadAction::Done
            }
        },
        LoadEvent::Saved { ok } => {
            if ok {
                LoadAction::Done
            } else {
                LoadAction::DiscardPartialFile
            }
        },
    }
}

/// The step that follows `e`: skip the cache when asked to or when there is no path;
/// download and save when forced, when the cache is missing or unreadable, or when the probe
/// finds it stale; keep a cache that the server calls not modified; remove a file whose
/// writing failed.
pub fn next_action(e: LoadEvent) -> (r: LoadAction)
    ensures
        r == spec_next_action(e),
{
    match e {
        LoadEvent::Start { no_cache, force, has_path } => {
            if no_cache || !has_path {
                LoadAction::Download { save: false }
            } else if force {
                LoadAction::Download { save: true }
            } else {
                LoadAction::ReadCache
            }
        },
        LoadEvent::CacheRead(CacheRead::Found) => LoadAction::Probe,
        LoadEvent::CacheRead(_) => LoadAction::Download { save: true },
        LoadEvent::Probed { not_modified } => {
            if not_modified {
                LoadAction::UseCached
            } else {
                LoadAction::Download { save: true }
            }
        },
        LoadEvent::Downloaded { save } => {
            if save {
                LoadAction::Save
            } else {
                LoadAction::Done
            }
        },
        LoadEvent::Saved { ok } => {
            if ok {
                LoadAction::Done
            } else {
                LoadAction::DiscardPartialFile
            }
        },
    }
}

/// A probe that answers "not modified" keeps the cached snapshot and writes nothing; any
/// other answer leads to a download whose result is then written to the cache file.
pub proof fn lemma_probe_outcome(not_modified: bool)
    ensures
        not_modified ==> spec_next_action(LoadEvent::Probed { not_modified }) == LoadAction::UseCached,
        !not_modified ==> spec_next_action(LoadEvent::Probed { not_modified }) == (LoadAction::Download {
            save: true,
        }),
        spec_next_action(LoadEvent::Downloaded { save: true }) == LoadAction::Save,
{
}

/// A failed write of the cache file is always followed by removing that file.
pub proof fn lemma_failed_save_discards()
    ensures
        spec_next_action(LoadEvent::Saved { ok: false }) == LoadAction::DiscardPartialFile,
{
}

} // verus!
