//! Decisions of the time-boxed update cycle: the bounded set of outstanding
//! chunk requests, the per-phase clock budget, and what to do with each
//! entry of the surroundings scan.
use vstd::prelude::*;
use crate::lod::{ChunkPosition, same_position};
use crate::surroundings::{LoadType, distance, lod_of_distance, distance_between, lod_index_of_distance, lg_sample_size};

verus! {

/// How many chunk requests may be outstanding at once.
pub const MAX_OUTSTANDING_TERRAIN_REQUESTS: usize = 1;

/// Wall-clock budget of one phase, in nanoseconds.
pub const PHASE_BUDGET_NS: u64 = 1_000_000;

/// The clock is read once every this many steps of a phase.
pub const CLOCK_CHECK_INTERVAL: u32 = 10;

/// A chunk and the sample granularity (log2 of the voxel size) it is asked at.
pub type RequestKey = (ChunkPosition, u32);

/// Whether a request for `key` goes out when `s` is outstanding under `limit`.
pub open spec fn admits(s: Set<RequestKey>, limit: nat, key: RequestKey) -> bool {
    !s.contains(key) && s.len() < limit
}

/// The outstanding requests after asking for `key`.
pub open spec fn after_register(s: Set<RequestKey>, limit: nat, key: RequestKey) -> Set<RequestKey> {
    if admits(s, limit, key) {
        s.insert(key)
    } else {
        s
    }
}

/// The chunk requests sent to the remote generation source and not yet
/// answered. Each (chunk, granularity) pair is in flight at most once, and
/// never more than the limit at a time.
pub struct PendingRequests {
    entries: Vec<RequestKey>,
    limit: usize,
}

impl View for PendingRequests {
    type V = Set<RequestKey>;

    closed spec fn view(&self) -> Set<RequestKey> {
        self.entries@.to_set()
    }
}

fn same_key(a: RequestKey, b: RequestKey) -> (r: bool)
    ensures
        r == (a == b),
{
    same_position(a.0, b.0) && a.1 == b.1
}

impl PendingRequests {
    pub closed spec fn wf(&self) -> bool {
        &&& self.entries@.no_duplicates()
        &&& self.entries@.len() <= self.limit
    }

    /// The most requests that may be outstanding.
    pub closed spec fn limit(&self) -> nat {
        self.limit as nat
    }

    proof fn lemma_len(&self)
        requires
            self.wf(),
        ensures
            self@.finite(),
            self@.len() == self.entries@.len(),
    {
        self.entries@.unique_seq_to_set();
    }

    pub fn new(limit: usize) -> (r: PendingRequests)
        ensures
            r.wf(),
            r@ == Set::<RequestKey>::empty(),
            r.limit() == limit,
    {
        let r = PendingRequests { entries: Vec::new(), limit };
        proof {
            assert(r.entries@.to_set() =~= Set::<RequestKey>::empty());
        }
        r
    }

    /// How many requests are outstanding.
    pub fn len(&self) -> (r: usize)
        requires
            self.wf(),
        ensures
            r == self@.len(),
    {
        proof {
            self.lemma_len();
        }
        self.entries.len()
    }

    /// Whether no further request may go out now.
    pub fn at_capacity(&self) -> (r: bool)
        requires
            self.wf(),
        ensures
            r == (self@.len() >= self.limit()),
    {
        proof {
            self.lemma_len();
        }
        self.entries.len() >= self.limit
    }

    fn index_of(&self, key: RequestKey) -> (r: Option<usize>)
        ensures
            match r {
                None => !self.entries@.contains(key),
                Some(i) => i < self.entries@.len() && self.entries@[i as int] == key,
            },
    {
        let mut i: usize = 0;
        while i < self.entries.len()
            invariant
                i <= self.entries@.len(),
                forall|j: int| 0 <= j < i ==> self.entries@[j] != key,
            decreases self.entries@.len() - i,
        {
            if same_key(self.entries[i], key) {
                return Some(i);
            }
            i = i + 1;
        }
        None
    }

    /// Whether a request for `key` is outstanding.
    pub fn contains(&self, key: RequestKey) -> (r: bool)
        ensures
            r == self@.contains(key),
    {
        match self.index_of(key) {
            None => false,
            Some(_) => true,
        }
    }

    /// Registers a request for `key`. Returns whether it is to be sent: not
    /// when the same request is already outstanding, nor when the limit is
    /// reached.
    pub fn register(&mut self, key: RequestKey) -> (r: bool)
        requires
            old(self).wf(),
        ensures
            final(self).wf(),
            final(self).limit() == old(self).limit(),
            r == admits(old(self)@, old(self).limit(), key),
            final(self)@ == after_register(old(self)@, old(self).limit(), key),
    {
        proof {
            old(self).lemma_len();
        }
        match self.index_of(key) {
            Some(_) => false,
            None => {
                if self.entries.len() >= self.limit {
                    false
                } else {
                    self.entries.push(key);
                    proof {
                        let o = old(self).entries@;
                        let s = self.entries@;
                        assert(s =~= o.push(key));
                        assert forall|a: int, b: int| 0 <= a < s.len() && 0 <= b < s.len() && a != b implies s[a] != s[b] by {
                            if a < o.len() && b < o.len() {
                                assert(s[a] == o[a] && s[b] == o[b]);
                            } else if a < o.len() {
                                assert(o.contains(o[a]));
                            } else {
                                assert(o.contains(o[b]));
                            }
                        }
                        assert forall|p: RequestKey| s.contains(p) <==> o.contains(p) || p == key by {
                            if s.contains(p) {
                                let k = choose|k: int| 0 <= k < s.len() && s[k] == p;
                                if k < o.len() {
                                    assert(o[k] == p);
                                }
                            }
                            if o.contains(p) {
                                let k = choose|k: int| 0 <= k < o.len() && o[k] == p;
                                assert(s[k] == p);
                            }
                            if p == key {
                                assert(s[o.len() as int] == p);
                            }
                        }
                        assert(s.to_set() =~= o.to_set().insert(key));
                    }
                    true
                }
            },
        }
    }

    /// Clears the request for `key` once its data has arrived. Returns
    /// whether it was outstanding.
    pub fn complete(&mut self, key: RequestKey) -> (r: bool)
        requires
            old(self).wf(),
        ensures
            final(self).wf(),
            final(self).limit() == old(self).limit(),
            final(self)@ == old(self)@.remove(key),
            r == old(self)@.contains(key),
    {
        match self.index_of(key) {
            None => {
                proof {
                    assert(self.entries@.to_set() =~= old(self)@.remove(key));
                }
                false
            },
            Some(i) => {
                self.entries.remove(i);
                proof {
                    let o = old(self).entries@;
                    let s = self.entries@;
                    assert(s =~= o.remove(i as int));
                    assert forall|a: int| 0 <= a < s.len() implies #[trigger] s[a] == o[if a < i { a } else { a + 1 }] by {}
                    assert forall|a: int, b: int| 0 <= a < s.len() && 0 <= b < s.len() && a != b implies s[a] != s[b] by {
                        assert(s[a] == o[if a < i { a } else { a + 1 }]);
                        assert(s[b] == o[if b < i { b } else { b + 1 }]);
                    }
                    assert forall|p: RequestKey| s.contains(p) <==> o.contains(p) && p != key by {
                        if s.contains(p) {
                            let k = choose|k: int| 0 <= k < s.len() && s[k] == p;
                            let k1 = if k < i { k } else { k + 1 };
                            assert(o[k1] == p);
                            assert(k1 != i);
                        }
                        if o.contains(p) && p != key {
                            let k = choose|k: int| 0 <= k < o.len() && o[k] == p;
                            assert(k != i);
                            let k1 = if k < i { k } else { k - 1 };
                            assert(s[k1] == p);
                        }
                    }
                    assert(s.to_set() =~= o.to_set().remove(key));
                }
                true
            },
        }
    }
}

/// However the update cycle runs, the outstanding requests never exceed the
/// limit: every well-formed set of them is within it.
pub proof fn lemma_backpressure_bound(p: &PendingRequests)
    requires
        p.wf(),
    ensures
        p@.len() <= p.limit(),
{
    p.lemma_len();
}

/// Asking for the same (chunk, granularity) pair a second time while the
/// first is outstanding sends nothing: of two registrations in a row at most
/// one lets a request out.
pub proof fn lemma_register_dedup(s: Set<RequestKey>, limit: nat, key: RequestKey)
    requires
        s.finite(),
    ensures
        !admits(after_register(s, limit, key), limit, key),
        !(admits(s, limit, key) && admits(after_register(s, limit, key), limit, key)),
{
}

/// Whether the clock is due to be read at step `i` of a phase.
pub fn clock_check_due(i: u32) -> (r: bool)
    ensures
        r == (i >= CLOCK_CHECK_INTERVAL),
{
    i >= CLOCK_CHECK_INTERVAL
}

/// Relies on time::precise_time_ns: the reading of a high-resolution counter,
/// in nanoseconds since an unspecified epoch. Nothing is promised of the value.
#[verifier::external_body]
fn precise_time_ns() -> (r: u64) {
    time::precise_time_ns()
}

/// Step `i` of a phase that started at `start_ns`: when the clock is due it
/// is read, and the phase stops if its budget is used up. Returns whether to
/// stop and the count for the next step.
pub fn budget_step(start_ns: u64, i: u32) -> (r: (bool, u32))
    ensures
        i < CLOCK_CHECK_INTERVAL ==> !r.0 && r.1 == i + 1,
        i >= CLOCK_CHECK_INTERVAL ==> r.1 == i - CLOCK_CHECK_INTERVAL + 1,
{
    if clock_check_due(i) {
        let stop = over_budget(start_ns, precise_time_ns());
        (stop, i - CLOCK_CHECK_INTERVAL + 1)
    } else {
        (false, i + 1)
    }
}

/// Whether a phase that started at `start_ns` has used up its budget at `now_ns`.
pub fn over_budget(start_ns: u64, now_ns: u64) -> (r: bool)
    ensures
        r == (now_ns >= start_ns && now_ns - start_ns >= PHASE_BUDGET_NS),
{
    now_ns >= start_ns && now_ns - start_ns >= PHASE_BUDGET_NS
}

/// What loading a chunk from local data gave.
#[derive(Clone, Copy, Debug, PartialEq, Eq, Structural)]
pub enum LoadResult {
    Success,
    AlreadyLoaded,
    ChunkMissing,
}

/// A request to the remote generation source for one chunk.
#[derive(Clone, Copy, Debug, PartialEq, Eq, Structural)]
pub struct ChunkRequest {
    pub time_requested_ns: u64,
    pub client_id: u32,
    pub position: ChunkPosition,
    pub lg_voxel_size: u32,
}

/// What the surroundings phase does next.
#[derive(Clone, Copy, Debug, PartialEq, Eq, Structural)]
pub enum SurroundingsStep {
    /// The outstanding requests are at their limit: the phase ends here and
    /// resumes with the next cycle.
    Stop,
    /// Load the chunk at the given level.
    TryLoad(ChunkPosition, u32),
    /// Drop the chunk.
    Unload(ChunkPosition),
}

/// The step for one entry of the surroundings scan around `center`.
pub fn surroundings_step(
    pending: &PendingRequests,
    center: ChunkPosition,
    entry: (ChunkPosition, LoadType),
) -> (r: SurroundingsStep)
    requires
        pending.wf(),
    ensures
        r == if pending@.len() >= pending.limit() {
            SurroundingsStep::Stop
        } else if entry.1 == LoadType::Unload {
            SurroundingsStep::Unload(entry.0)
        } else {
            SurroundingsStep::TryLoad(entry.0, lod_of_distance(distance(center, entry.0)) as u32)
        },
{
    if pending.at_capacity() {
        SurroundingsStep::Stop
    } else {
        match entry.1 {
            LoadType::Unload => SurroundingsStep::Unload(entry.0),
            _ => SurroundingsStep::TryLoad(entry.0, lod_index_of_distance(distance_between(center, entry.0))),
        }
    }
}

/// Handles the result of loading `pos` at `lod`: data missing locally is
/// asked for, once per (chunk, granularity) pair and within the limit.
/// Returns the request to send, if any.
pub fn on_load_result(
    pending: &mut PendingRequests,
    pos: ChunkPosition,
    lod: u32,
    result: LoadResult,
    time_requested_ns: u64,
    client_id: u32,
) -> (r: Option<ChunkRequest>)
    requires
        old(pending).wf(),
    ensures
        final(pending).wf(),
        final(pending).limit() == old(pending).limit(),
        result != LoadResult::ChunkMissing ==> r is None && final(pending)@ == old(pending)@,
        result == LoadResult::ChunkMissing ==> {
            &&& final(pending)@ == after_register(old(pending)@, old(pending).limit(), (pos, lod))
            &&& r == if admits(old(pending)@, old(pending).limit(), (pos, lod)) {
                Some(ChunkRequest { time_requested_ns, client_id, position: pos, lg_voxel_size: lod })
            } else {
                None
            }
        },
{
    match result {
        LoadResult::ChunkMissing => {
            let lg_voxel_size = lg_sample_size(lod);
            if pending.register((pos, lg_voxel_size)) {
                Some(ChunkRequest { time_requested_ns, client_id, position: pos, lg_voxel_size })
            } else {
                None
            }
        },
        _ => None,
    }
}

} // verus!
