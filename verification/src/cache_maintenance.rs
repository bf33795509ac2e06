//! Settings and arithmetic of the background cache maintenance.
//!
//! The pruning itself is a verified operation of the store; the timer
//! loop that triggers it runs outside the library.

use vstd::prelude::*;

verus! {

/// When and how aggressively aged entries are pruned.
pub struct CacheMaintenanceConfig {
    pub enabled: bool,
    pub interval_hours: u64,
    pub retention_days: i64,
    pub cleanup_on_startup: bool,
    pub min_hit_count: u64,
}

impl Default for CacheMaintenanceConfig {
    fn default() -> (r: Self)
        ensures
            r.enabled == false,
            r.interval_hours == 12,
            r.retention_days == 30,
            r.cleanup_on_startup == false,
            r.min_hit_count == 5,
    {
        CacheMaintenanceConfig {
            enabled: false,
            interval_hours: 12,
            retention_days: 30,
            cleanup_on_startup: false,
            min_hit_count: 5,
        }
    }
}

/// The age cutoff of one maintenance pass: rows older than this many
/// seconds ago are candidates for pruning.
pub fn maintenance_cutoff(now: i64, retention_days: i64) -> (r: i64)
    requires
        0 <= retention_days,
        retention_days * 86400 <= i64::MAX,
        i64::MIN <= now - retention_days * 86400,
    ensures
        r == now - retention_days * 86400,
{
    now - retention_days * 86400
}

} // verus!
