//! The state of the proxy: the ring of keys and its counters.
//!
//! Each method is one step of the model in [`Pool`].  Where requests run side by side, their
//! owner lets them take these steps one at a time.

use crate::config::Config;
use crate::pool::{bump, lemma_fresh_wf, lemma_recorded_wf, lemma_rotated_wf, Pool};
use crate::text::texts;
use vstd::prelude::*;

verus! {

/// The counters of one key.
#[derive(Debug)]
struct KeyMetrics {
    requests: u64,
    failovers: u64,
}

impl KeyMetrics {
    fn new() -> (metrics: KeyMetrics)
        ensures
            metrics.requests == 0,
            metrics.failovers == 0,
    {
        KeyMetrics { requests: 0, failovers: 0 }
    }
}

/// The ring of keys with its counters.
///
/// The ring moves on only when the key that was refused is still the active one.  A request that
/// was refused on a key which another request has left behind already takes the key that is
/// active now, so that no working key is skipped.
#[derive(Debug)]
pub struct AppState {
    pub config: Config,
    /// The position of the active key.
    active: usize,
    per_key: Vec<KeyMetrics>,
    requests_total: u64,
    failovers_total: u64,
}

impl View for AppState {
    type V = Pool;

    closed spec fn view(&self) -> Pool {
        Pool {
            keys: texts(self.config.keys@),
            active: self.active as int,
            requests: self.per_key@.map_values(|m: KeyMetrics| m.requests),
            failovers: self.per_key@.map_values(|m: KeyMetrics| m.failovers),
            requests_total: self.requests_total,
            failovers_total: self.failovers_total,
        }
    }
}

/// A counter after one more event.
fn bumped(count: u64) -> (next: u64)
    ensures
        next == bump(count),
{
    count.wrapping_add(1)
}

impl AppState {
    /// The configuration of the state.
    pub closed spec fn configured(&self) -> Config {
        self.config
    }

    /// A state in which the first key is active and nothing has been counted.
    pub fn new(config: Config) -> (state: AppState)
        ensures
            state.configured() == config,
            state@ == Pool::fresh(config@.keys),
            state@.wf(),
    {
        let mut per_key: Vec<KeyMetrics> = Vec::new();
        for i in 0..config.keys.len()
            invariant
                per_key.len() == i,
                forall|j: int|
                    0 <= j < i ==> (#[trigger] per_key@[j]).requests == 0 && per_key@[j].failovers
                        == 0,
        {
            per_key.push(KeyMetrics::new());
        }
        let state = AppState {
            config,
            active: 0,
            per_key,
            requests_total: 0,
            failovers_total: 0,
        };
        proof {
            assert(state@.requests =~= Pool::fresh(config@.keys).requests);
            assert(state@.failovers =~= Pool::fresh(config@.keys).failovers);
            lemma_fresh_wf(config@.keys);
        }
        state
    }

    /// The configuration.
    pub fn config(&self) -> (config: &Config)
        ensures
            *config == self.configured(),
            config@.keys == self@.keys,
    {
        &self.config
    }

    /// How many keys the ring has.
    pub fn key_count(&self) -> (count: usize)
        ensures
            count == self@.keys.len(),
    {
        self.config.keys.len()
    }

    /// The position of the active key.
    pub fn active_index(&self) -> (index: usize)
        ensures
            index == self@.active,
    {
        self.active
    }

    /// The key at a position.
    pub fn key_at(&self, index: usize) -> (key: &str)
        requires
            index < self@.keys.len(),
        ensures
            key@ == self@.keys[index as int],
    {
        self.config.keys[index].as_str()
    }

    /// Count a request that is sent with the key at a position.
    pub fn record_request(&mut self, index: usize)
        requires
            old(self)@.wf(),
            index < old(self)@.keys.len(),
        ensures
            final(self)@ == old(self)@.recorded(index as int),
            final(self)@.wf(),
            final(self).configured() == old(self).configured(),
    {
        let ghost before = self@;
        self.requests_total = bumped(self.requests_total);
        let metrics = KeyMetrics {
            requests: bumped(self.per_key[index].requests),
            failovers: self.per_key[index].failovers,
        };
        self.per_key.set(index, metrics);
        proof {
            assert(self@.requests =~= before.recorded(index as int).requests);
            assert(self@.failovers =~= before.failovers);
            lemma_recorded_wf(before, index as int);
        }
    }

    /// Move the ring on if the key at `from` is still the active one, and count that as a
    /// failover.
    ///
    /// The result is the position of the key that is active afterwards: the one for the next
    /// attempt.
    pub fn rotate_from(&mut self, from: usize) -> (current: usize)
        requires
            old(self)@.wf(),
            old(self)@.keys.len() > 0,
            from < usize::MAX,
        ensures
            final(self)@ == old(self)@.rotated(from as int),
            current == final(self)@.active,
            from != old(self)@.active ==> final(self)@ == old(self)@ && current
                == old(self)@.active,
            from == old(self)@.active ==> current == if from + 1 == old(self)@.keys.len() {
                0
            } else {
                from + 1
            },
            final(self)@.wf(),
            final(self).configured() == old(self).configured(),
    {
        let ghost before = self@;
        proof {
            lemma_rotated_wf(before, from as int);
        }
        let next = (from + 1) % self.key_count();
        proof {
            let n = before.keys.len() as int;
            if from + 1 == n {
                vstd::arithmetic::div_mod::lemma_mod_self_0(n);
            } else if from + 1 < n {
                vstd::arithmetic::div_mod::lemma_small_mod((from + 1) as nat, n as nat);
            }
        }
        if self.active == from {
            self.active = next;
            self.failovers_total = bumped(self.failovers_total);
            let metrics = KeyMetrics {
                requests: self.per_key[from].requests,
                failovers: bumped(self.per_key[from].failovers),
            };
            self.per_key.set(from, metrics);
            proof {
                assert(self@.requests =~= before.requests);
                assert(self@.failovers =~= before.rotated(from as int).failovers);
            }
            next
        } else {
            self.active
        }
    }

    /// The counters as they stand.
    pub fn snapshot(&self) -> (snapshot: StatusSnapshot)
        requires
            self@.wf(),
        ensures
            snapshot.active_key_index == self@.active,
            snapshot.total_keys == self@.keys.len(),
            snapshot.requests_total == self@.requests_total,
            snapshot.failovers_total == self@.failovers_total,
            snapshot.per_key.len() == self@.keys.len(),
            forall|i: int|
                0 <= i < self@.keys.len() ==> {
                    let status = #[trigger] snapshot.per_key@[i];
                    &&& status.index == i
                    &&& status.requests == self@.requests[i]
                    &&& status.failovers == self@.failovers[i]
                },
    {
        let mut per_key: Vec<KeyStatus> = Vec::new();
        for i in 0..self.per_key.len()
            invariant
                per_key.len() == i,
                forall|j: int|
                    0 <= j < i ==> {
                        let status = #[trigger] per_key@[j];
                        &&& status.index == j
                        &&& status.requests == self@.requests[j]
                        &&& status.failovers == self@.failovers[j]
                    },
        {
            per_key.push(
                KeyStatus {
                    index: i,
                    requests: self.per_key[i].requests,
                    failovers: self.per_key[i].failovers,
                },
            );
        }
        StatusSnapshot {
            active_key_index: self.active_index(),
            total_keys: self.key_count(),
            requests_total: self.requests_total,
            failovers_total: self.failovers_total,
            per_key,
        }
    }
}

/// The counters at one moment.
#[derive(Debug)]
pub struct StatusSnapshot {
    pub active_key_index: usize,
    pub total_keys: usize,
    pub requests_total: u64,
    pub failovers_total: u64,
    pub per_key: Vec<KeyStatus>,
}

/// The counters of one key at one moment.
#[derive(Debug)]
pub struct KeyStatus {
    pub index: usize,
    pub requests: u64,
    pub failovers: u64,
}

} // verus!
