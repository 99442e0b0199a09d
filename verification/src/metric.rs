//! Names of the counters and histograms the core reports. The sink that
//! receives them is outside the library; only the key derivation is logic.

use crate::text::concat_str;
use vstd::prelude::*;

verus! {

pub const COUNTER_CACHE_HIT: &'static str = "cache_hit";

pub const COUNTER_CACHE_MISS: &'static str = "cache_miss";

pub const COUNTER_TASKS_BG: &'static str = "download_tasks_bg";

pub const COUNTER_REQ: &'static str = "requests";

pub const CNT_TASKS_BG_SUCCESS: &'static str = "download_tasks_bg_success";

pub const CNT_TASKS_BG_FAILURE: &'static str = "download_tasks_bg_failure";

pub const HG_TASKS_LEN: &'static str = "current_download_tasks";

pub const HG_CACHE_SIZE_PREFIX: &'static str = "cache_size";

pub const CNT_RM_FILES: &'static str = "files_removed";

/// The per-policy cache-size histogram key: the prefix, '_', and the policy
/// id.
pub fn get_cache_size_metrics_key(id: &str) -> (r: String)
    ensures
        r@ == HG_CACHE_SIZE_PREFIX@ + "_"@ + id@,
{
    let step = concat_str(HG_CACHE_SIZE_PREFIX, "_");
    concat_str(step.as_str(), id)
}

} // verus!
