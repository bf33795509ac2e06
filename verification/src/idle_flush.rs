//! Idle-triggered flushing of the memory cache.
//!
//! A single last-activity stamp, updated on every dispatch event, decides
//! when the proxy counts as idle; an idle check that finds anything
//! resident or staged drains both into one batch write. The timer loop
//! that calls the check runs outside the library and hands in the clock
//! readings.

use vstd::prelude::*;
use crate::db_writer::{spec_batch_write, DbWriter};
use crate::memory_cache::{pairs_view, put_all, MemoryCache};
use crate::store::Store;

verus! {

/// Idle-flush settings, in seconds.
pub struct IdleFlushConfig {
    pub enabled: bool,
    pub idle_timeout: u64,
    pub check_interval: u64,
}

impl Default for IdleFlushConfig {
    fn default() -> (r: Self)
        ensures
            r.enabled == false,
            r.idle_timeout == 300,
            r.check_interval == 60,
    {
        IdleFlushConfig { enabled: false, idle_timeout: 300, check_interval: 60 }
    }
}

impl IdleFlushConfig {
    /// The runtime settings read off the configuration file's section.
    pub fn from_yaml_config(idle_flush_config: &crate::config::IdleFlushConfig) -> (r: Self)
        ensures
            r.enabled == idle_flush_config.enabled,
            r.idle_timeout == idle_flush_config.idle_timeout_seconds,
            r.check_interval == idle_flush_config.check_interval_seconds,
    {
        IdleFlushConfig {
            enabled: idle_flush_config.enabled,
            idle_timeout: idle_flush_config.idle_timeout_seconds,
            check_interval: idle_flush_config.check_interval_seconds,
        }
    }
}

/// Tracks activity and drains the cache after enough idle time.
pub struct IdleFlushManager {
    pub config: IdleFlushConfig,
    pub last_activity: i64,
    pub db_writer: Option<DbWriter>,
}

impl IdleFlushManager {
    pub fn new(config: IdleFlushConfig, now: i64) -> (r: Self)
        ensures
            r.config == config,
            r.last_activity == now,
            r.db_writer is None,
    {
        IdleFlushManager { config, last_activity: now, db_writer: None }
    }

    /// Attaches the store writer that the flushes persist through.
    pub fn with_db(self, cache_version: u8) -> (r: Self)
        ensures
            r.config == self.config,
            r.last_activity == self.last_activity,
            r.db_writer matches Some(w) && w.cache_version == cache_version,
    {
        IdleFlushManager {
            config: self.config,
            last_activity: self.last_activity,
            db_writer: Some(DbWriter::new(cache_version)),
        }
    }

    /// Stamps the clock on a dispatch event.
    pub fn update_activity(&mut self, now: i64)
        ensures
            final(self).last_activity == now,
            final(self).config == old(self).config,
            final(self).db_writer == old(self).db_writer,
    {
        self.last_activity = now;
    }

    /// Whether an idle check at `now` flushes: only when enabled, idle at
    /// least the configured timeout, and something is resident or staged.
    pub open spec fn spec_should_flush(
        &self,
        now: i64,
        cache_count: int,
        pending_count: int,
    ) -> bool {
        &&& self.config.enabled
        &&& now - self.last_activity >= self.config.idle_timeout
        &&& (cache_count > 0 || pending_count > 0)
    }

    pub fn should_flush(&self, now: i64, cache_count: usize, pending_count: usize) -> (r: bool)
        ensures
            r == self.spec_should_flush(now, cache_count as int, pending_count as int),
    {
        self.config.enabled && (now as i128 - self.last_activity as i128)
            >= self.config.idle_timeout as i128 && (cache_count > 0 || pending_count > 0)
    }

    /// One flush: every staged pair is taken, every resident entry is
    /// moved to the staging area and taken as well, and the whole batch
    /// goes to the writer when one is attached. The activity stamp
    /// resets.
    pub fn flush_idle(&mut self, cache: &mut MemoryCache, store: &mut Store, now: i64) -> (r: (
        usize,
        usize,
    ))
        requires
            old(cache).wf(),
            old(store).wf(),
        ensures
            final(cache).wf(),
            final(store).wf(),
            final(self).last_activity == now,
            final(self).config == old(self).config,
            final(self).db_writer == old(self).db_writer,
            final(cache).entries_view().len() == 0,
            final(cache).pending_view() == put_all(
                Seq::empty(),
                old(cache).entries_view(),
            ),
            match old(self).db_writer {
                Some(w) => {
                    &&& (final(store).answers_v(), final(store).questions_v()) == spec_batch_write(
                        old(store).answers_v(),
                        old(store).questions_v(),
                        old(cache).pending_view() + old(cache).entries_view(),
                        w.cache_version,
                        now,
                    )
                    &&& r.0 == old(cache).pending_view().len() + old(cache).entries_view().len()
                    &&& r.1 == 0
                },
                None => *final(store) == *old(store) && r == (0usize, 0usize),
            },
    {
        let pending_count = cache.pending_count();
        let mut all_items = cache.take_pending_writes(pending_count);
        let ghost taken = pairs_view(all_items@);
        let mut cache_items = cache.flush_all_to_pending();
        proof {
            assert(taken =~= old(cache).pending_view());
            assert(old(cache).pending_view().subrange(
                old(cache).pending_view().len() as int,
                old(cache).pending_view().len() as int,
            ) =~= Seq::<(Seq<char>, Seq<u8>)>::empty());
        }
        all_items.append(&mut cache_items);
        proof {
            assert(pairs_view(all_items@) =~= old(cache).pending_view() + old(
                cache,
            ).entries_view()) by {
                let s = all_items@;
                let t = old(cache).pending_view() + old(cache).entries_view();
                assert forall|i: int| 0 <= i < s.len() implies pairs_view(s)[i] == t[i] by {
                    crate::memory_cache::lemma_pairs_view_index(s, i);
                }
            }
        }
        let result = match &self.db_writer {
            Some(writer) => {
                let w = DbWriter::new(writer.cache_version);
                let (ok, failed) = w.batch_write(store, all_items, now);
                (ok, failed)
            },
            None => (0, 0),
        };
        self.last_activity = now;
        result
    }
}

} // verus!
