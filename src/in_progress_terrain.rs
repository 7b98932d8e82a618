//! Chunks whose content is requested but not generated yet. Each holds a
//! minimal physical placeholder so that nothing treats the space as empty.
use vstd::prelude::*;
use crate::lod::{ChunkPosition, same_position};

verus! {

/// The set of chunks that stand as placeholders.
pub struct InProgressTerrain {
    chunks: Vec<ChunkPosition>,
}

impl View for InProgressTerrain {
    type V = Set<ChunkPosition>;

    closed spec fn view(&self) -> Set<ChunkPosition> {
        self.chunks@.to_set()
    }
}

impl InProgressTerrain {
    pub closed spec fn wf(&self) -> bool {
        self.chunks@.no_duplicates()
    }

    pub fn new() -> (r: InProgressTerrain)
        ensures
            r.wf(),
            r@ == Set::<ChunkPosition>::empty(),
    {
        let r = InProgressTerrain { chunks: Vec::new() };
        proof {
            assert(r.chunks@.to_set() =~= Set::<ChunkPosition>::empty());
        }
        r
    }

    fn index_of(&self, pos: ChunkPosition) -> (r: Option<usize>)
        ensures
            match r {
                None => !self.chunks@.contains(pos),
                Some(i) => i < self.chunks@.len() && self.chunks@[i as int] == pos,
            },
    {
        let mut i: usize = 0;
        while i < self.chunks.len()
            invariant
                i <= self.chunks@.len(),
                forall|j: int| 0 <= j < i ==> self.chunks@[j] != pos,
            decreases self.chunks@.len() - i,
        {
            if same_position(self.chunks[i], pos) {
                return Some(i);
            }
            i = i + 1;
        }
        None
    }

    /// Whether `pos` stands as a placeholder.
    pub fn contains(&self, pos: ChunkPosition) -> (r: bool)
        ensures
            r == self@.contains(pos),
    {
        match self.index_of(pos) {
            None => false,
            Some(_) => true,
        }
    }

    /// Marks `pos` as pending. Returns whether it was not pending before, in
    /// which case the caller inserts its physical placeholder.
    pub fn insert(&mut self, pos: ChunkPosition) -> (r: bool)
        requires
            old(self).wf(),
        ensures
            final(self).wf(),
            final(self)@ == old(self)@.insert(pos),
            r == !old(self)@.contains(pos),
    {
        match self.index_of(pos) {
            Some(_) => {
                proof {
                    assert(self.chunks@.to_set() =~= old(self)@.insert(pos));
                }
                false
            },
            None => {
                self.chunks.push(pos);
                proof {
                    let o = old(self).chunks@;
                    let s = self.chunks@;
                    assert(s =~= o.push(pos));
                    assert forall|a: int, b: int| 0 <= a < s.len() && 0 <= b < s.len() && a != b implies s[a] != s[b] by {
                        if a < o.len() && b < o.len() {
                            assert(s[a] == o[a] && s[b] == o[b]);
                        } else if a < o.len() {
                            assert(o.contains(o[a]));
                        } else {
                            assert(o.contains(o[b]));
                        }
                    }
                    assert forall|p: ChunkPosition| s.contains(p) <==> o.contains(p) || p == pos by {
                        if s.contains(p) {
                            let k = choose|k: int| 0 <= k < s.len() && s[k] == p;
                            if k < o.len() {
                                assert(o[k] == p);
                            }
                        }
                        if o.contains(p) {
                            let k = choose|k: int| 0 <= k < o.len() && o[k] == p;
                            assert(s[k] == p);
                        }
                        if p == pos {
                            assert(s[o.len() as int] == p);
                        }
                    }
                    assert(s.to_set() =~= o.to_set().insert(pos));
                }
                true
            },
        }
    }

    /// Clears `pos` from the pending chunks. Returns whether it was pending,
    /// in which case the caller removes its physical placeholder.
    pub fn remove(&mut self, pos: ChunkPosition) -> (r: bool)
        requires
            old(self).wf(),
        ensures
            final(self).wf(),
            final(self)@ == old(self)@.remove(pos),
            r == old(self)@.contains(pos),
    {
        match self.index_of(pos) {
            None => {
                proof {
                    assert(self.chunks@.to_set() =~= old(self)@.remove(pos));
                }
                false
            },
            Some(i) => {
                self.chunks.remove(i);
                proof {
                    let o = old(self).chunks@;
                    let s = self.chunks@;
                    assert(s =~= o.remove(i as int));
                    assert forall|a: int| 0 <= a < s.len() implies #[trigger] s[a] == o[if a < i { a } else { a + 1 }] by {}
                    assert forall|a: int, b: int| 0 <= a < s.len() && 0 <= b < s.len() && a != b implies s[a] != s[b] by {
                        assert(s[a] == o[if a < i { a } else { a + 1 }]);
                        assert(s[b] == o[if b < i { b } else { b + 1 }]);
                    }
                    assert forall|p: ChunkPosition| s.contains(p) <==> o.contains(p) && p != pos by {
                        if s.contains(p) {
                            let k = choose|k: int| 0 <= k < s.len() && s[k] == p;
                            let k1 = if k < i { k } else { k + 1 };
                            assert(o[k1] == p);
                            assert(k1 != i);
                        }
                        if o.contains(p) && p != pos {
                            let k = choose|k: int| 0 <= k < o.len() && o[k] == p;
                            assert(k != i);
                            let k1 = if k < i { k } else { k - 1 };
                            assert(s[k1] == p);
                        }
                    }
                    assert(s.to_set() =~= o.to_set().remove(pos));
                }
                true
            },
        }
    }
}

} // verus!
