//! What a build of a timetable is asked to do.

use std::path::PathBuf;
use vstd::prelude::*;

verus! {

/// `std::path::PathBuf`, which the library carries through and never looks
/// into.
#[verifier::external_type_specification]
#[verifier::external_body]
pub struct ExPathBuf(PathBuf);

/// The arguments of a build: where the timetable goes, where the feeds
/// and the road tiles are, how many threads work, and whether timetables
/// that were compiled before are only to be merged.
pub struct BuildArgs {
    pub base_path: PathBuf,
    pub gtfs_path: PathBuf,
    pub valhalla_tiles: PathBuf,
    pub num_threads: usize,
    pub concat_only: bool,
}

/// Where the timetables of a build come from.
#[derive(Debug, Clone, Copy, PartialEq, Eq, Structural)]
pub enum BuildSource {
    /// The timetables under the base path are merged.
    Compiled,
    /// The feeds under the feed path are compiled, each on its own, and
    /// merged.
    FeedDirectory,
    /// The one feed at the feed path is compiled.
    SingleFeed,
}

impl BuildArgs {
    /// Whether the build has to look at the feed path at all: it has
    /// unless it only merges.
    pub fn reads_feeds(&self) -> (r: bool)
        ensures
            r == !self.concat_only,
    {
        !self.concat_only
    }

    /// Where the timetables of the build come from, given whether the feed
    /// path is a directory.
    pub fn source(&self, gtfs_is_dir: bool) -> (r: BuildSource)
        ensures
            r == if self.concat_only {
                BuildSource::Compiled
            } else if gtfs_is_dir {
                BuildSource::FeedDirectory
            } else {
                BuildSource::SingleFeed
            },
    {
        if self.concat_only {
            BuildSource::Compiled
        } else if gtfs_is_dir {
            BuildSource::FeedDirectory
        } else {
            BuildSource::SingleFeed
        }
    }
}

} // verus!
