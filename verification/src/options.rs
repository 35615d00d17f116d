use vstd::prelude::*;

verus! {

/// What a scan keeps and what the display shows.
pub struct ScanOptions {
    /// Limits the walk to this many levels below the root plus one; every
    /// walked level is shown.
    pub max_depth: Option<usize>,
    /// Entries smaller than this are not shown.
    pub min_size: Option<u64>,
    /// Whether plain files are shown, not only directories.
    pub show_files: bool,
    /// How many of the largest children of a directory are kept.
    pub top_n: Option<usize>,
}

/// The number of children a directory keeps by default.
pub const DEFAULT_TOP_N: usize = 20;

impl Default for ScanOptions {
    /// No depth limit, no size threshold, directories only, twenty children per directory.
    fn default() -> (r: Self)
        ensures
            r.max_depth is None,
            r.min_size is None,
            !r.show_files,
            r.top_n == Some(DEFAULT_TOP_N),
    {
        ScanOptions { max_depth: None, min_size: None, show_files: false, top_n: Some(DEFAULT_TOP_N) }
    }
}

/// The depth to which the directory walk descends: one level more than
/// `max_depth`, or without limit when no depth is given.
pub open spec fn spec_walk_depth(max_depth: Option<usize>) -> int {
    match max_depth {
        Some(d) => d + 1,
        None => usize::MAX as int,
    }
}

impl ScanOptions {
    /// The depth limit handed to the directory walk.
    pub fn walk_depth(&self) -> (r: usize)
        requires
            self.max_depth != Some(usize::MAX),
        ensures
            r == spec_walk_depth(self.max_depth),
    {
        match self.max_depth {
            Some(d) => d + 1,
            None => usize::MAX,
        }
    }
}

/// The walk goes exactly one level deeper than the depth that is asked for:
/// a depth of 0 walks one level, and each further level asked for walks one
/// more, so a larger depth always walks further.
pub proof fn law_walk_one_level_further(d: usize, e: usize)
    ensures
        spec_walk_depth(Some(0)) == 1,
        d < usize::MAX ==> spec_walk_depth(Some((d + 1) as usize)) == spec_walk_depth(Some(d)) + 1,
        d < e ==> spec_walk_depth(Some(d)) < spec_walk_depth(Some(e)),
        spec_walk_depth(Some(d)) - d == 1,
        spec_walk_depth(None) == usize::MAX,
{
}

} // verus!
