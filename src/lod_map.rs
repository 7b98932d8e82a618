//! Per-owner level-of-detail demands for each chunk, and the level that the
//! chunk is loaded at: the finest of its owners' demands.
use vstd::prelude::*;
use crate::lod::{
    ChunkPosition, OwnerId, Lod, finer_or_equal, finest, finer_of, same_lod, same_position,
    lemma_finer_antisymmetric, lemma_finer_transitive, lemma_finer_total,
};

verus! {

/// The demands of every owner for every chunk.
pub type DemandModel = Map<(ChunkPosition, OwnerId), Lod>;

/// One owner's demand for one chunk.
#[derive(Clone, Copy, Debug)]
pub struct Demand {
    pub position: ChunkPosition,
    pub owner: OwnerId,
    pub lod: Lod,
}

/// A change of the level that a chunk should be loaded at.
#[derive(Clone, Copy, Debug, PartialEq, Eq, Structural)]
pub struct LodChange {
    pub loaded: Option<Lod>,
    pub desired: Option<Lod>,
}

pub open spec fn key_of(d: Demand) -> (ChunkPosition, OwnerId) {
    (d.position, d.owner)
}

/// What `owner` demands of the chunk at `pos`, if anything.
pub open spec fn demand_of(m: DemandModel, pos: ChunkPosition, owner: OwnerId) -> Option<Lod> {
    if m.contains_key((pos, owner)) {
        Some(m[(pos, owner)])
    } else {
        None
    }
}

/// `l` is the finest demand on `pos`: `None` when no owner demands it.
pub open spec fn is_finest(m: DemandModel, pos: ChunkPosition, l: Option<Lod>) -> bool {
    match l {
        None => forall|o: OwnerId| !#[trigger] m.contains_key((pos, o)),
        Some(x) => {
            &&& exists|o: OwnerId| #[trigger] m.contains_key((pos, o)) && m[(pos, o)] == x
            &&& forall|o: OwnerId| #[trigger]
                m.contains_key((pos, o)) ==> finer_or_equal(x, m[(pos, o)])
        },
    }
}

/// The level the chunk at `pos` is to be loaded at: the finest demand on it.
pub open spec fn aggregate(m: DemandModel, pos: ChunkPosition) -> Option<Lod> {
    choose|l: Option<Lod>| is_finest(m, pos, l)
}

/// The delta reported when the aggregate goes from `before` to `after`.
pub open spec fn change_between(before: Option<Lod>, after: Option<Lod>) -> Option<LodChange> {
    if before == after {
        None
    } else {
        Some(LodChange { loaded: before, desired: after })
    }
}

/// The demands after `owner` asks for `target` on `pos`.
pub open spec fn after_increase(
    m: DemandModel,
    pos: ChunkPosition,
    target: Lod,
    owner: OwnerId,
) -> DemandModel {
    m.insert((pos, owner), target)
}

/// The demands after `owner` lowers its demand on `pos` to `target`
/// (`None`: withdraws it).
pub open spec fn after_decrease(
    m: DemandModel,
    pos: ChunkPosition,
    target: Option<Lod>,
    owner: OwnerId,
) -> DemandModel {
    match target {
        None => m.remove((pos, owner)),
        Some(t) => m.insert((pos, owner), t),
    }
}

/// `l` is the finest demand on `pos` among the entries of `s`.
pub open spec fn is_finest_in(s: Seq<Demand>, pos: ChunkPosition, l: Option<Lod>) -> bool {
    match l {
        None => forall|i: int| 0 <= i < s.len() ==> (#[trigger] s[i]).position != pos,
        Some(x) => {
            &&& exists|i: int| 0 <= i < s.len() && (#[trigger] s[i]).position == pos && s[i].lod == x
            &&& forall|i: int|
                0 <= i < s.len() && (#[trigger] s[i]).position == pos ==> finer_or_equal(x, s[i].lod)
        },
    }
}

/// The finest demand on `pos` among the entries of `s`, from the first on.
pub open spec fn finest_in(s: Seq<Demand>, pos: ChunkPosition) -> Option<Lod>
    decreases s.len(),
{
    if s.len() == 0 {
        None
    } else {
        finest(
            finest_in(s.drop_last(), pos),
            if s.last().position == pos {
                Some(s.last().lod)
            } else {
                None
            },
        )
    }
}

pub proof fn lemma_finest_in(s: Seq<Demand>, pos: ChunkPosition)
    ensures
        is_finest_in(s, pos, finest_in(s, pos)),
    decreases s.len(),
{
    if s.len() > 0 {
        let p = s.drop_last();
        lemma_finest_in(p, pos);
        let last = s.len() - 1;
        assert forall|i: int| 0 <= i < last implies s[i] == p[i] by {}
        match finest_in(p, pos) {
            None => {},
            Some(x) => {
                let i0 = choose|i: int| 0 <= i < p.len() && (#[trigger] p[i]).position == pos && p[i].lod == x;
                assert(s[i0] == p[i0]);
                if s.last().position == pos {
                    lemma_finer_total(x, s.last().lod);
                    assert forall|i: int|
                        0 <= i < s.len() && (#[trigger] s[i]).position == pos implies finer_or_equal(
                        finest_in(s, pos).unwrap(),
                        s[i].lod,
                    ) by {
                        if i < last {
                            assert(s[i] == p[i]);
                            assert(finer_or_equal(x, p[i].lod));
                            if finest_in(s, pos) != Some(x) {
                                lemma_finer_transitive(s.last().lod, x, p[i].lod);
                            }
                        }
                    }
                }
            },
        }
    }
}

/// Two finest demands on the same chunk are the same.
pub proof fn lemma_finest_unique(m: DemandModel, pos: ChunkPosition, a: Option<Lod>, b: Option<Lod>)
    requires
        is_finest(m, pos, a),
        is_finest(m, pos, b),
    ensures
        a == b,
{
    match (a, b) {
        (Some(x), Some(y)) => {
            let o = choose|o: OwnerId| #[trigger] m.contains_key((pos, o)) && m[(pos, o)] == y;
            let p = choose|p: OwnerId| #[trigger] m.contains_key((pos, p)) && m[(pos, p)] == x;
            assert(finer_or_equal(x, m[(pos, o)]));
            assert(finer_or_equal(y, m[(pos, p)]));
            lemma_finer_antisymmetric(x, y);
        },
        (Some(x), None) => {
            let o = choose|o: OwnerId| #[trigger] m.contains_key((pos, o)) && m[(pos, o)] == x;
        },
        (None, Some(y)) => {
            let o = choose|o: OwnerId| #[trigger] m.contains_key((pos, o)) && m[(pos, o)] == y;
        },
        (None, None) => {},
    }
}

pub proof fn lemma_aggregate_of_finest(m: DemandModel, pos: ChunkPosition, l: Option<Lod>)
    requires
        is_finest(m, pos, l),
    ensures
        aggregate(m, pos) == l,
{
    lemma_finest_unique(m, pos, aggregate(m, pos), l);
}

/// Bookkeeping of demands: which owner wants which chunk at which level.
/// It performs no loading itself, so that a failed load can be undone exactly.
pub struct LodMap {
    demands: Vec<Demand>,
    model: Ghost<DemandModel>,
}

impl View for LodMap {
    type V = DemandModel;

    closed spec fn view(&self) -> DemandModel {
        self.model@
    }
}

impl LodMap {
    /// The entries hold each (chunk, owner) pair once, and exactly the demands.
    pub closed spec fn wf(&self) -> bool {
        let s = self.demands@;
        let m = self.model@;
        &&& forall|i: int, j: int|
            0 <= i < j < s.len() ==> key_of(#[trigger] s[i]) != key_of(#[trigger] s[j])
        &&& forall|i: int|
            0 <= i < s.len() ==> m.contains_key(key_of(#[trigger] s[i])) && m[key_of(s[i])]
                == s[i].lod
        &&& forall|k: (ChunkPosition, OwnerId)| #[trigger]
            m.contains_key(k) ==> exists|i: int| 0 <= i < s.len() && key_of(#[trigger] s[i]) == k
    }

    proof fn lemma_finest_matches(&self, pos: ChunkPosition, l: Option<Lod>)
        requires
            self.wf(),
            is_finest_in(self.demands@, pos, l),
        ensures
            is_finest(self@, pos, l),
            aggregate(self@, pos) == l,
    {
        let s = self.demands@;
        let m = self.model@;
        match l {
            None => {
                assert forall|o: OwnerId| !#[trigger] m.contains_key((pos, o)) by {
                    if m.contains_key((pos, o)) {
                        let i = choose|i: int| 0 <= i < s.len() && key_of(#[trigger] s[i]) == (pos, o);
                    }
                }
            },
            Some(x) => {
                let i = choose|i: int| 0 <= i < s.len() && (#[trigger] s[i]).position == pos && s[i].lod == x;
                assert(m.contains_key((pos, s[i].owner)));
                assert forall|o: OwnerId| #[trigger]
                    m.contains_key((pos, o)) implies finer_or_equal(x, m[(pos, o)]) by {
                    let j = choose|j: int| 0 <= j < s.len() && key_of(#[trigger] s[j]) == (pos, o);
                    assert(s[j].position == pos);
                }
            },
        }
        lemma_aggregate_of_finest(self@, pos, l);
    }

    /// An empty map: no demands.
    pub fn new() -> (r: LodMap)
        ensures
            r.wf(),
            r@ == Map::<(ChunkPosition, OwnerId), Lod>::empty(),
    {
        LodMap { demands: Vec::new(), model: Ghost(Map::empty()) }
    }

    /// The level that the chunk at `pos` is to be loaded at.
    pub fn loaded_lod(&self, pos: ChunkPosition) -> (r: Option<Lod>)
        requires
            self.wf(),
        ensures
            r == aggregate(self@, pos),
            is_finest(self@, pos, r),
    {
        let mut best: Option<Lod> = None;
        let mut i: usize = 0;
        while i < self.demands.len()
            invariant
                i <= self.demands@.len(),
                is_finest_in(self.demands@.subrange(0, i as int), pos, best),
            decreases self.demands@.len() - i,
        {
            let d = self.demands[i];
            let ghost prev = best;
            let here = if same_position(d.position, pos) {
                Some(d.lod)
            } else {
                None
            };
            best = finer_of(best, here);
            proof {
                let s0 = self.demands@.subrange(0, i as int);
                let s1 = self.demands@.subrange(0, i + 1);
                assert(s1.drop_last() =~= s0);
                assert(s1.last() == d);
                assert(finest_in(s1, pos) == finest(finest_in(s0, pos), here));
                lemma_finest_in(s0, pos);
                lemma_finest_in(s1, pos);
                lemma_finest_in_unique(s0, pos, prev, finest_in(s0, pos));
            }
            i = i + 1;
        }
        proof {
            assert(self.demands@.subrange(0, self.demands@.len() as int) =~= self.demands@);
            self.lemma_finest_matches(pos, best);
        }
        best
    }

    /// What `owner` demands of the chunk at `pos`.
    pub fn demand(&self, pos: ChunkPosition, owner: OwnerId) -> (r: Option<Lod>)
        requires
            self.wf(),
        ensures
            r == demand_of(self@, pos, owner),
    {
        match self.find(pos, owner) {
            None => None,
            Some(i) => Some(self.demands[i].lod),
        }
    }

    /// Whether any owner demands the chunk at `pos`.
    pub fn contains_chunk(&self, pos: ChunkPosition) -> (r: bool)
        requires
            self.wf(),
        ensures
            r == exists|o: OwnerId| #[trigger] self@.contains_key((pos, o)),
    {
        let l = self.loaded_lod(pos);
        match l {
            None => false,
            Some(_) => true,
        }
    }

    /// Records that `owner` wants at least `target` for `pos`. Returns the
    /// owner's previous demand, and the change of the chunk's loaded level,
    /// if there is one.
    pub fn increase_lod(&mut self, pos: ChunkPosition, target: Lod, owner: OwnerId) -> (r: (
        Option<Lod>,
        Option<LodChange>,
    ))
        requires
            old(self).wf(),
            match demand_of(old(self)@, pos, owner) {
                None => true,
                Some(d) => finer_or_equal(target, d),
            },
        ensures
            final(self).wf(),
            final(self)@ == after_increase(old(self)@, pos, target, owner),
            r.0 == demand_of(old(self)@, pos, owner),
            r.1 == change_between(aggregate(old(self)@, pos), aggregate(final(self)@, pos)),
    {
        let before = self.loaded_lod(pos);
        let prev = match self.find(pos, owner) {
            Some(i) => {
                let p = self.demands[i].lod;
                self.set_lod(i, target);
                Some(p)
            },
            None => {
                self.push_demand(Demand { position: pos, owner, lod: target });
                None
            },
        };
        let after = self.loaded_lod(pos);
        let change = if same_lod(before, after) {
            None
        } else {
            Some(LodChange { loaded: before, desired: after })
        };
        (prev, change)
    }

    /// Records that `owner` now wants no more than `target` for `pos`
    /// (`None`: withdraws its demand). Returns the owner's previous demand,
    /// and the change of the chunk's loaded level, if there is one.
    pub fn decrease_lod(&mut self, pos: ChunkPosition, target: Option<Lod>, owner: OwnerId) -> (r: (
        Option<Lod>,
        Option<LodChange>,
    ))
        requires
            old(self).wf(),
            match demand_of(old(self)@, pos, owner) {
                None => false,
                Some(d) => match target {
                    None => true,
                    Some(t) => finer_or_equal(d, t),
                },
            },
        ensures
            final(self).wf(),
            final(self)@ == after_decrease(old(self)@, pos, target, owner),
            r.0 == demand_of(old(self)@, pos, owner),
            r.1 == change_between(aggregate(old(self)@, pos), aggregate(final(self)@, pos)),
    {
        let before = self.loaded_lod(pos);
        let prev = match self.find(pos, owner) {
            Some(i) => {
                let p = self.demands[i].lod;
                match target {
                    Some(t) => self.set_lod(i, t),
                    None => self.remove_demand(i),
                }
                Some(p)
            },
            None => None,
        };
        let after = self.loaded_lod(pos);
        let change = if same_lod(before, after) {
            None
        } else {
            Some(LodChange { loaded: before, desired: after })
        };
        (prev, change)
    }

    fn set_lod(&mut self, i: usize, lod: Lod)
        requires
            old(self).wf(),
            i < old(self).demands@.len(),
        ensures
            final(self).wf(),
            final(self)@ == old(self)@.insert(key_of(old(self).demands@[i as int]), lod),
            final(self).demands@.len() == old(self).demands@.len(),
            key_of(final(self).demands@[i as int]) == key_of(old(self).demands@[i as int]),
    {
        let d = self.demands[i];
        let ghost m = self.model@.insert(key_of(d), lod);
        self.demands.set(i, Demand { position: d.position, owner: d.owner, lod });
        self.model = Ghost(m);
        proof {
            let s = self.demands@;
            assert forall|k: (ChunkPosition, OwnerId)| #[trigger]
                m.contains_key(k) implies exists|j: int| 0 <= j < s.len() && key_of(#[trigger] s[j]) == k by {
                if k == key_of(d) {
                    assert(key_of(s[i as int]) == k);
                } else {
                    assert(old(self).model@.contains_key(k));
                    let j = choose|j: int| 0 <= j < s.len() && key_of(#[trigger] old(self).demands@[j]) == k;
                    assert(key_of(s[j]) == k);
                }
            }
        }
    }

    fn push_demand(&mut self, d: Demand)
        requires
            old(self).wf(),
            !old(self)@.contains_key(key_of(d)),
        ensures
            final(self).wf(),
            final(self)@ == old(self)@.insert(key_of(d), d.lod),
    {
        let ghost m = self.model@.insert(key_of(d), d.lod);
        self.demands.push(d);
        self.model = Ghost(m);
        proof {
            let s = self.demands@;
            let n = old(self).demands@.len();
            assert(s[n as int] == d);
            assert forall|i: int| 0 <= i < n implies key_of(#[trigger] s[i]) != key_of(d) by {
                assert(s[i] == old(self).demands@[i]);
                assert(old(self)@.contains_key(key_of(old(self).demands@[i])));
            }
            assert forall|i: int, j: int|
                0 <= i < j < s.len() implies key_of(#[trigger] s[i]) != key_of(#[trigger] s[j]) by {
                if j < n {
                    assert(s[i] == old(self).demands@[i]);
                    assert(s[j] == old(self).demands@[j]);
                }
            }
            assert forall|k: (ChunkPosition, OwnerId)| #[trigger]
                m.contains_key(k) implies exists|j: int| 0 <= j < s.len() && key_of(#[trigger] s[j]) == k by {
                if k == key_of(d) {
                    assert(key_of(s[n as int]) == k);
                } else {
                    assert(old(self).model@.contains_key(k));
                    let j = choose|j: int| 0 <= j < n && key_of(#[trigger] old(self).demands@[j]) == k;
                    assert(s[j] == old(self).demands@[j]);
                }
            }
        }
    }

    fn remove_demand(&mut self, i: usize)
        requires
            old(self).wf(),
            i < old(self).demands@.len(),
        ensures
            final(self).wf(),
            final(self)@ == old(self)@.remove(key_of(old(self).demands@[i as int])),
    {
        let ghost o = self.demands@;
        let ghost k0 = key_of(o[i as int]);
        let ghost m = self.model@.remove(k0);
        self.demands.remove(i);
        self.model = Ghost(m);
        proof {
            let s = self.demands@;
            assert(s =~= o.remove(i as int));
            assert forall|a: int| 0 <= a < s.len() implies #[trigger] s[a] == o[if a < i { a } else { a + 1 }] by {}
            assert forall|a: int, b: int|
                0 <= a < b < s.len() implies key_of(#[trigger] s[a]) != key_of(#[trigger] s[b]) by {
                let a1 = if a < i { a } else { a + 1 };
                let b1 = if b < i { b } else { b + 1 };
                assert(s[a] == o[a1]);
                assert(s[b] == o[b1]);
            }
            assert forall|a: int| 0 <= a < s.len() implies m.contains_key(key_of(#[trigger] s[a])) && m[key_of(s[a])] == s[a].lod by {
                let a1 = if a < i { a } else { a + 1 };
                assert(s[a] == o[a1]);
                if a1 < i {
                    assert(key_of(o[a1]) != k0);
                } else {
                    assert(key_of(o[i as int]) != key_of(o[a1]));
                }
            }
            assert forall|k: (ChunkPosition, OwnerId)| #[trigger]
                m.contains_key(k) implies exists|j: int| 0 <= j < s.len() && key_of(#[trigger] s[j]) == k by {
                assert(old(self).model@.contains_key(k));
                let j = choose|j: int| 0 <= j < o.len() && key_of(#[trigger] o[j]) == k;
                assert(j != i);
                let j1 = if j < i { j } else { j - 1 };
                assert(s[j1] == o[j]);
            }
        }
    }

    fn find(&self, pos: ChunkPosition, owner: OwnerId) -> (r: Option<usize>)
        requires
            self.wf(),
        ensures
            match r {
                None => !self@.contains_key((pos, owner)),
                Some(i) => i < self.demands@.len() && key_of(self.demands@[i as int]) == (pos, owner),
            },
    {
        let mut i: usize = 0;
        while i < self.demands.len()
            invariant
                i <= self.demands@.len(),
                forall|j: int| 0 <= j < i ==> key_of(#[trigger] self.demands@[j]) != (pos, owner),
            decreases self.demands@.len() - i,
        {
            let d = self.demands[i];
            if same_position(d.position, pos) && d.owner == owner {
                return Some(i);
            }
            i = i + 1;
        }
        proof {
            if self@.contains_key((pos, owner)) {
                let j = choose|j: int| 0 <= j < self.demands@.len() && key_of(#[trigger] self.demands@[j]) == (pos, owner);
            }
        }
        None
    }
}

/// In every well-formed map, the level a chunk is loaded at is the finest
/// demand of all its owners (a concrete index beats the placeholder, which
/// beats no demand at all).
pub proof fn lemma_aggregation_invariant(m: &LodMap, pos: ChunkPosition)
    requires
        m.wf(),
    ensures
        is_finest(m@, pos, aggregate(m@, pos)),
{
    lemma_finest_in(m.demands@, pos);
    m.lemma_finest_matches(pos, finest_in(m.demands@, pos));
}

/// Asking twice in a row for the same level changes nothing the second time:
/// the demands stay as they are and no delta is reported.
pub proof fn lemma_increase_idempotent(m: DemandModel, pos: ChunkPosition, target: Lod, owner: OwnerId)
    ensures
        after_increase(after_increase(m, pos, target, owner), pos, target, owner)
            == after_increase(m, pos, target, owner),
        change_between(
            aggregate(after_increase(m, pos, target, owner), pos),
            aggregate(after_increase(after_increase(m, pos, target, owner), pos, target, owner), pos),
        ) is None,
{
    assert(after_increase(after_increase(m, pos, target, owner), pos, target, owner)
        =~= after_increase(m, pos, target, owner));
}

/// Undoing an increase by decreasing to the owner's previous demand gives
/// back exactly the demands, and so every chunk's loaded level, from before.
pub proof fn lemma_increase_rollback(m: DemandModel, pos: ChunkPosition, target: Lod, owner: OwnerId)
    requires
        match demand_of(m, pos, owner) {
            None => true,
            Some(d) => finer_or_equal(target, d),
        },
    ensures
        ({
            let raised = after_increase(m, pos, target, owner);
            let restored = after_decrease(raised, pos, demand_of(m, pos, owner), owner);
            &&& restored == m
            &&& forall|p: ChunkPosition| aggregate(restored, p) == aggregate(m, p)
        }),
{
    let raised = after_increase(m, pos, target, owner);
    let restored = after_decrease(raised, pos, demand_of(m, pos, owner), owner);
    assert(restored =~= m);
}

/// Undoing a decrease by increasing back to the owner's previous demand gives
/// back exactly the demands from before.
pub proof fn lemma_decrease_rollback(m: DemandModel, pos: ChunkPosition, target: Option<Lod>, owner: OwnerId)
    requires
        demand_of(m, pos, owner) is Some,
    ensures
        after_increase(
            after_decrease(m, pos, target, owner),
            pos,
            demand_of(m, pos, owner).unwrap(),
            owner,
        ) == m,
{
    assert(after_increase(after_decrease(m, pos, target, owner), pos, demand_of(m, pos, owner).unwrap(), owner) =~= m);
}

pub proof fn lemma_finest_in_unique(s: Seq<Demand>, pos: ChunkPosition, a: Option<Lod>, b: Option<Lod>)
    requires
        is_finest_in(s, pos, a),
        is_finest_in(s, pos, b),
    ensures
        a == b,
{
    match (a, b) {
        (Some(x), Some(y)) => {
            let i = choose|i: int| 0 <= i < s.len() && (#[trigger] s[i]).position == pos && s[i].lod == x;
            let j = choose|i: int| 0 <= i < s.len() && (#[trigger] s[i]).position == pos && s[i].lod == y;
            lemma_finer_antisymmetric(x, y);
        },
        (Some(x), None) => {
            let i = choose|i: int| 0 <= i < s.len() && (#[trigger] s[i]).position == pos && s[i].lod == x;
        },
        (None, Some(y)) => {
            let j = choose|i: int| 0 <= i < s.len() && (#[trigger] s[i]).position == pos && s[i].lod == y;
        },
        (None, None) => {},
    }
}

} // verus!
