use vstd::prelude::*;

use crate::scanner::spec_total_size;
use crate::scanner::total_size;
use crate::scanner::views_of;
use crate::scanner::FoundDir;

verus! {

/// What one cleaning pass achieved: the directories whose recursive delete
/// succeeded, and those whose delete failed, each paired with the text of
/// the failure. One failure never aborts the batch.
pub struct CleanResult {
    pub deleted: Vec<FoundDir>,
    pub failed: Vec<(FoundDir, String)>,
}

impl CleanResult {
    /// Total bytes reclaimed by the successful deletions.
    pub fn total_cleaned(&self) -> (r: u64)
        requires
            spec_total_size(views_of(self.deleted@), 0) <= u64::MAX,
        ensures
            r as nat == spec_total_size(views_of(self.deleted@), 0),
    {
        total_size(self.deleted.as_slice())
    }
}

} // verus!
