//! The key/value layer under the scheduler state: human-readable keys,
//! opaque byte values, last write wins per key.
//!
//! Keys identify one entity each, under one namespace: executors,
//! heartbeats and slot records by executor id; jobs by job id; stages by
//! `(job_id, stage_id)`; tasks by `(job_id, stage_id, partition_id)`.
//! Both backing engines the scheduler can run over provide single-key
//! linearizability, which is exactly what these contracts state: a read
//! returns the latest write to its key and nothing else. The round-trip
//! lemma at the end ties this layer to the record codec: a persisted
//! record reads back and decodes to the entity it was made from.

use vstd::prelude::*;
use crate::codec::{spec_decode_task_status, spec_encode_task_status, max_len_prefix,
    task_state_fits};
use crate::domain::TaskStatusView;
use vstd::utf8::encode_utf8;

verus! {

/// The key of one persisted record.
pub enum StoreKey {
    Executor { executor_id: String },
    Heartbeat { executor_id: String },
    Slots { executor_id: String },
    Job { job_id: String },
    Stage { job_id: String, stage_id: u32 },
    Task { job_id: String, stage_id: u32, partition_id: u32 },
}

#[verifier::ext_equal]
pub enum StoreKeyView {
    Executor { executor_id: Seq<char> },
    Heartbeat { executor_id: Seq<char> },
    Slots { executor_id: Seq<char> },
    Job { job_id: Seq<char> },
    Stage { job_id: Seq<char>, stage_id: u32 },
    Task { job_id: Seq<char>, stage_id: u32, partition_id: u32 },
}

impl View for StoreKey {
    type V = StoreKeyView;

    open spec fn view(&self) -> StoreKeyView {
        match self {
            StoreKey::Executor { executor_id } => StoreKeyView::Executor {
                executor_id: executor_id@,
            },
            StoreKey::Heartbeat { executor_id } => StoreKeyView::Heartbeat {
                executor_id: executor_id@,
            },
            StoreKey::Slots { executor_id } => StoreKeyView::Slots { executor_id: executor_id@ },
            StoreKey::Job { job_id } => StoreKeyView::Job { job_id: job_id@ },
            StoreKey::Stage { job_id, stage_id } => StoreKeyView::Stage {
                job_id: job_id@,
                stage_id: *stage_id,
            },
            StoreKey::Task { job_id, stage_id, partition_id } => StoreKeyView::Task {
                job_id: job_id@,
                stage_id: *stage_id,
                partition_id: *partition_id,
            },
        }
    }
}

impl StoreKey {
    fn same_key(&self, other: &StoreKey) -> (r: bool)
        ensures
            r == (self@ == other@),
    {
        match (self, other) {
            (StoreKey::Executor { executor_id: a }, StoreKey::Executor { executor_id: b }) => {
                let r = *a == *b;
                proof {
                    if r {
                        assert(self@ =~= other@);
                    }
                }
                r
            },
            (StoreKey::Heartbeat { executor_id: a }, StoreKey::Heartbeat { executor_id: b }) => {
                let r = *a == *b;
                proof {
                    if r {
                        assert(self@ =~= other@);
                    }
                }
                r
            },
            (StoreKey::Slots { executor_id: a }, StoreKey::Slots { executor_id: b }) => {
                let r = *a == *b;
                proof {
                    if r {
                        assert(self@ =~= other@);
                    }
                }
                r
            },
            (StoreKey::Job { job_id: a }, StoreKey::Job { job_id: b }) => {
                let r = *a == *b;
                proof {
                    if r {
                        assert(self@ =~= other@);
                    }
                }
                r
            },
            (
                StoreKey::Stage { job_id: a, stage_id: sa },
                StoreKey::Stage { job_id: b, stage_id: sb },
            ) => {
                let r = *a == *b && *sa == *sb;
                proof {
                    if r {
                        assert(self@ =~= other@);
                    }
                }
                r
            },
            (
                StoreKey::Task { job_id: a, stage_id: sa, partition_id: pa },
                StoreKey::Task { job_id: b, stage_id: sb, partition_id: pb },
            ) => {
                let r = *a == *b && *sa == *sb && *pa == *pb;
                proof {
                    if r {
                        assert(self@ =~= other@);
                    }
                }
                r
            },
            _ => false,
        }
    }

    /// The key addresses a task record.
    pub open spec fn spec_is_task(self) -> bool {
        self@ is Task
    }

    pub fn is_task(&self) -> (r: bool)
        ensures
            r == self.spec_is_task(),
    {
        match self {
            StoreKey::Task { .. } => true,
            _ => false,
        }
    }
}

pub open spec fn find_key(s: Seq<(StoreKey, Vec<u8>)>, key: StoreKeyView) -> Option<int>
    decreases s.len(),
{
    if s.len() == 0 {
        None
    } else if s[0].0@ == key {
        Some(0)
    } else {
        match find_key(s.drop_first(), key) {
            Some(i) => Some(i + 1),
            None => None,
        }
    }
}

pub proof fn lemma_find_key(s: Seq<(StoreKey, Vec<u8>)>, key: StoreKeyView)
    ensures
        match find_key(s, key) {
            Some(i) => 0 <= i < s.len() && s[i].0@ == key && forall|j: int|
                0 <= j < i ==> (#[trigger] s[j]).0@ != key,
            None => forall|j: int| 0 <= j < s.len() ==> (#[trigger] s[j]).0@ != key,
        },
    decreases s.len(),
{
    if s.len() > 0 && s[0].0@ != key {
        lemma_find_key(s.drop_first(), key);
        match find_key(s, key) {
            Some(i) => {
                assert(s[i] == s.drop_first()[i - 1]);
                assert forall|j: int| 0 <= j < i implies (#[trigger] s[j]).0@ != key by {
                    if j >= 1 {
                        assert(s[j] == s.drop_first()[j - 1]);
                        assert(s.drop_first()[j - 1].0@ != key);
                    }
                }
            },
            None => {
                assert forall|j: int| 0 <= j < s.len() implies (#[trigger] s[j]).0@ != key by {
                    if j >= 1 {
                        assert(s[j] == s.drop_first()[j - 1]);
                        assert(s.drop_first()[j - 1].0@ != key);
                    }
                }
            },
        }
    }
}

pub open spec fn keys_unique(s: Seq<(StoreKey, Vec<u8>)>) -> bool {
    forall|i: int, j: int| 0 <= i < j < s.len() ==> (#[trigger] s[i]).0@ != (#[trigger] s[j]).0@
}

pub open spec fn upsert_entry(s: Seq<(StoreKey, Vec<u8>)>, key: StoreKey, value: Vec<u8>) -> Seq<
    (StoreKey, Vec<u8>),
> {
    match find_key(s, key@) {
        Some(i) => s.update(i, (key, value)),
        None => s.push((key, value)),
    }
}

pub proof fn lemma_upsert_entry_unique(s: Seq<(StoreKey, Vec<u8>)>, key: StoreKey, value: Vec<u8>)
    requires
        keys_unique(s),
    ensures
        keys_unique(upsert_entry(s, key, value)),
        ({
            let u = upsert_entry(s, key, value);
            find_key(u, key@) matches Some(i) && u[i] == (key, value)
        }),
{
    lemma_find_key(s, key@);
    let u = upsert_entry(s, key, value);
    lemma_find_key(u, key@);
    match find_key(s, key@) {
        Some(i) => {
            assert forall|a: int, b: int| 0 <= a < b < u.len() implies (#[trigger] u[a]).0@ != (
            #[trigger] u[b]).0@ by {
                assert(a == i || u[a] == s[a]);
                assert(b == i || u[b] == s[b]);
            }
            match find_key(u, key@) {
                Some(i2) => {
                    if i2 < i {
                        assert(u[i2] == s[i2]);
                        assert(false);
                    }
                    if i < i2 {
                        assert(u[i].0@ == key@);
                        assert(false);
                    }
                },
                None => {
                    assert(u[i].0@ == key@);
                    assert(false);
                },
            }
        },
        None => {
            assert forall|a: int, b: int| 0 <= a < b < u.len() implies (#[trigger] u[a]).0@ != (
            #[trigger] u[b]).0@ by {
                assert(a == s.len() as int || u[a] == s[a]);
                assert(b == s.len() as int || u[b] == s[b]);
            }
            match find_key(u, key@) {
                Some(i2) => {
                    if i2 < s.len() {
                        assert(u[i2] == s[i2]);
                        assert(false);
                    }
                },
                None => {
                    assert(u[s.len() as int].0@ == key@);
                    assert(false);
                },
            }
        },
    }
}

/// An in-memory image of one namespace of the backing store: a map from
/// keys to the latest bytes written under them.
pub struct KvStore {
    pub entries: Vec<(StoreKey, Vec<u8>)>,
}

impl KvStore {
    pub open spec fn wf(self) -> bool {
        keys_unique(self.entries@)
    }

    pub fn new() -> (r: Self)
        ensures
            r.wf(),
            r.entries@.len() == 0,
    {
        KvStore { entries: Vec::new() }
    }

    fn key_idx(&self, key: &StoreKey) -> (r: Option<usize>)
        ensures
            match find_key(self.entries@, key@) {
                Some(i) => r matches Some(k) && k as int == i && i < self.entries@.len(),
                None => r is None,
            },
    {
        let mut k: usize = 0;
        while k < self.entries.len()
            invariant
                k <= self.entries@.len(),
                forall|j: int| 0 <= j < k ==> (#[trigger] self.entries@[j]).0@ != key@,
            decreases self.entries@.len() - k,
        {
            if self.entries[k].0.same_key(key) {
                proof {
                    lemma_find_key(self.entries@, key@);
                }
                return Some(k);
            }
            k += 1;
        }
        proof {
            lemma_find_key(self.entries@, key@);
        }
        None
    }

    /// The latest bytes written under the key, if any write happened.
    pub fn get(&self, key: &StoreKey) -> (r: Option<&Vec<u8>>)
        ensures
            match find_key(self.entries@, key@) {
                Some(i) => r matches Some(v) && v@ == self.entries@[i].1@,
                None => r is None,
            },
    {
        match self.key_idx(key) {
            Some(i) => Some(&self.entries[i].1),
            None => None,
        }
    }

    /// Durably writes the bytes under the key; the last write wins.
    pub fn put(&mut self, key: StoreKey, value: Vec<u8>)
        ensures
            final(self).entries@ == upsert_entry(old(self).entries@, key, value),
            old(self).wf() ==> final(self).wf(),
    {
        let ghost k0 = key;
        let ghost v0 = value;
        proof {
            if old(self).wf() {
                lemma_upsert_entry_unique(old(self).entries@, k0, v0);
            }
        }
        match self.key_idx(&key) {
            Some(i) => {
                self.entries[i] = (key, value);
            },
            None => {
                self.entries.push((key, value));
            },
        }
    }

    /// All values stored under task keys, in store order: the scan of
    /// the task prefix.
    pub fn scan_tasks(&self) -> (r: Vec<&Vec<u8>>)
        ensures
            r@.len() == self.entries@.filter(|e: (StoreKey, Vec<u8>)| e.0.spec_is_task()).len(),
            forall|i: int|
                0 <= i < r@.len() ==> (#[trigger] r@[i])@ == self.entries@.filter(
                    |e: (StoreKey, Vec<u8>)| e.0.spec_is_task(),
                )[i].1@,
    {
        broadcast use vstd::seq_lib::group_filter_ensures;

        let mut out: Vec<&Vec<u8>> = Vec::new();
        let mut k: usize = 0;
        proof {
            assert(self.entries@.take(0int).filter(|e: (StoreKey, Vec<u8>)| e.0.spec_is_task())
                =~= Seq::<(StoreKey, Vec<u8>)>::empty());
        }
        while k < self.entries.len()
            invariant
                k <= self.entries@.len(),
                ({
                    let kept = self.entries@.take(k as int).filter(
                        |e: (StoreKey, Vec<u8>)| e.0.spec_is_task(),
                    );
                    out@.len() == kept.len() && forall|i: int|
                        0 <= i < out@.len() ==> (#[trigger] out@[i])@ == kept[i].1@
                }),
            decreases self.entries@.len() - k,
        {
            proof {
                let pred = |e: (StoreKey, Vec<u8>)| e.0.spec_is_task();
                let prefix1 = self.entries@.take(k as int + 1);
                assert(prefix1.drop_last() =~= self.entries@.take(k as int));
                assert(prefix1.last() == self.entries@[k as int]);
                reveal_with_fuel(Seq::filter, 2);
                if pred(self.entries@[k as int]) {
                    assert(prefix1.filter(pred) == self.entries@.take(k as int).filter(
                        pred,
                    ).push(self.entries@[k as int]));
                } else {
                    assert(prefix1.filter(pred) == self.entries@.take(k as int).filter(pred));
                }
            }
            if self.entries[k].0.is_task() {
                out.push(&self.entries[k].1);
            }
            k += 1;
        }
        proof {
            assert(self.entries@.take(self.entries@.len() as int) =~= self.entries@);
        }
        out
    }
}

/// A persisted task record reads back and decodes to the entity it was
/// made from: writing `encode(t)` under the task's key, then reading that
/// key, yields bytes that decode to `t` exactly.
pub proof fn lemma_persisted_task_round_trip(
    entries: Seq<(StoreKey, Vec<u8>)>,
    key: StoreKey,
    value: Vec<u8>,
    t: TaskStatusView,
)
    requires
        keys_unique(entries),
        value@ == spec_encode_task_status(t),
        encode_utf8(t.task_id.job_id).len() < max_len_prefix(),
        task_state_fits(t.status),
    ensures
        ({
            let u = upsert_entry(entries, key, value);
            find_key(u, key@) matches Some(i) && spec_decode_task_status(u[i].1@) == Some(t)
        }),
{
    lemma_upsert_entry_unique(entries, key, value);
    crate::codec::lemma_task_status_round_trip(t);
}

} // verus!
