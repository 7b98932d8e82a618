//! The scan of an observer's surroundings: every chunk within the load
//! radius whose loaded level differs from the one its distance calls for,
//! nearest first, then every loaded chunk beyond the radius.
use vstd::prelude::*;
use crate::lod::{ChunkPosition, same_position};

verus! {

/// Upper bounds of the distances served at each level of detail; beyond the
/// last one the coarsest level applies.
pub const LOD_THRESHOLD_FINE: i64 = 2;
pub const LOD_THRESHOLD_MEDIUM: i64 = 16;
pub const LOD_THRESHOLD_COARSE: i64 = 32;

/// What a chunk needs.
#[derive(Clone, Copy, Debug, PartialEq, Eq, Structural)]
pub enum LoadType {
    Load,
    Downgrade,
    Unload,
}

pub open spec fn abs(v: int) -> int {
    if v < 0 {
        -v
    } else {
        v
    }
}

pub open spec fn max3(a: int, b: int, c: int) -> int {
    if a >= b && a >= c {
        a
    } else if b >= c {
        b
    } else {
        c
    }
}

/// The chessboard distance between two chunks: the largest difference of
/// one coordinate.
pub open spec fn distance(a: ChunkPosition, b: ChunkPosition) -> int {
    max3(abs(b.x - a.x), abs(b.y - a.y), abs(b.z - a.z))
}

/// The level of detail that a distance calls for: larger distance, coarser level.
pub open spec fn lod_of_distance(d: int) -> int {
    if d <= LOD_THRESHOLD_FINE {
        0
    } else if d <= LOD_THRESHOLD_MEDIUM {
        1
    } else if d <= LOD_THRESHOLD_COARSE {
        2
    } else {
        3
    }
}

/// The level that `known` records for `p`, if it records one.
pub open spec fn known_lod(known: Seq<(ChunkPosition, u32)>, p: ChunkPosition) -> Option<u32> {
    if exists|i: int| 0 <= i < known.len() && (#[trigger] known[i]).0 == p {
        Some(known[choose|i: int| 0 <= i < known.len() && (#[trigger] known[i]).0 == p].1)
    } else {
        None
    }
}

/// The records of `known` name each chunk once.
pub open spec fn unique_chunks(known: Seq<(ChunkPosition, u32)>) -> bool {
    forall|i: int, j: int| 0 <= i < j < known.len() ==> (#[trigger] known[i]).0 != (#[trigger] known[j]).0
}

/// What the chunk at `p` needs when the observer is at `center`.
pub open spec fn classify(
    center: ChunkPosition,
    max_distance: int,
    known: Seq<(ChunkPosition, u32)>,
    p: ChunkPosition,
) -> Option<LoadType> {
    let d = distance(center, p);
    if d <= max_distance {
        match known_lod(known, p) {
            None => Some(LoadType::Load),
            Some(k) => if k > lod_of_distance(d) {
                Some(LoadType::Load)
            } else if k < lod_of_distance(d) {
                Some(LoadType::Downgrade)
            } else {
                None
            },
        }
    } else {
        match known_lod(known, p) {
            None => None,
            Some(_) => Some(LoadType::Unload),
        }
    }
}

/// The order in which the scan meets a chunk: by distance, then by offset.
pub open spec fn scan_key(center: ChunkPosition, p: ChunkPosition) -> (int, int, int, int) {
    (distance(center, p), p.x - center.x, p.y - center.y, p.z - center.z)
}

pub open spec fn key_lt(a: (int, int, int, int), b: (int, int, int, int)) -> bool {
    a.0 < b.0 || (a.0 == b.0 && (a.1 < b.1 || (a.1 == b.1 && (a.2 < b.2 || (a.2 == b.2 && a.3 < b.3)))))
}

/// The distance between two chunks.
pub fn distance_between(a: ChunkPosition, b: ChunkPosition) -> (r: i64)
    ensures
        r == distance(a, b),
{
    let dx = b.x as i64 - a.x as i64;
    let dy = b.y as i64 - a.y as i64;
    let dz = b.z as i64 - a.z as i64;
    let ax = if dx < 0 { -dx } else { dx };
    let ay = if dy < 0 { -dy } else { dy };
    let az = if dz < 0 { -dz } else { dz };
    if ax >= ay && ax >= az {
        ax
    } else if ay >= az {
        ay
    } else {
        az
    }
}

/// The level of detail that a distance calls for.
pub fn lod_index_of_distance(d: i64) -> (r: u32)
    ensures
        r == lod_of_distance(d as int),
{
    if d <= LOD_THRESHOLD_FINE {
        0
    } else if d <= LOD_THRESHOLD_MEDIUM {
        1
    } else if d <= LOD_THRESHOLD_COARSE {
        2
    } else {
        3
    }
}

/// The sample granularity (log2 of the voxel size) of a level: each coarser
/// level doubles the voxel size.
pub fn lg_sample_size(lod: u32) -> (r: u32)
    ensures
        r == lod,
{
    lod
}

/// The level that `known` records for `p`.
pub fn lookup_known(known: &Vec<(ChunkPosition, u32)>, p: ChunkPosition) -> (r: Option<u32>)
    requires
        unique_chunks(known@),
    ensures
        r == known_lod(known@, p),
{
    let mut i: usize = 0;
    while i < known.len()
        invariant
            i <= known@.len(),
            unique_chunks(known@),
            forall|j: int| 0 <= j < i ==> (#[trigger] known@[j]).0 != p,
        decreases known@.len() - i,
    {
        if same_position(known[i].0, p) {
            proof {
                assert(known@[i as int].0 == p);
                assert(exists|j: int| 0 <= j < known@.len() && (#[trigger] known@[j]).0 == p);
                let c = choose|j: int| 0 <= j < known@.len() && (#[trigger] known@[j]).0 == p;
                if c > i {
                    assert(known@[i as int].0 == known@[c].0);
                }
                assert(c == i);
            }
            return Some(known[i].1);
        }
        i = i + 1;
    }
    None
}

/// What the chunk at `p` needs when the observer is at `center`.
pub fn classify_chunk(
    center: ChunkPosition,
    max_distance: u32,
    known: &Vec<(ChunkPosition, u32)>,
    p: ChunkPosition,
) -> (r: Option<LoadType>)
    requires
        unique_chunks(known@),
    ensures
        r == classify(center, max_distance as int, known@, p),
{
    let d = distance_between(center, p);
    let k = lookup_known(known, p);
    if d <= max_distance as i64 {
        let target = lod_index_of_distance(d);
        match k {
            None => Some(LoadType::Load),
            Some(k) => if k > target {
                Some(LoadType::Load)
            } else if k < target {
                Some(LoadType::Downgrade)
            } else {
                None
            },
        }
    } else {
        match k {
            None => None,
            Some(_) => Some(LoadType::Unload),
        }
    }
}

/// Every chunk within `max_distance` of `center` whose level is to change,
/// in the order of the scan: nearest first.
fn nearby_changes(center: ChunkPosition, max_distance: u32, known: &Vec<(ChunkPosition, u32)>) -> (r: Vec<
    (ChunkPosition, LoadType),
>)
    requires
        unique_chunks(known@),
    ensures
        forall|i: int|
            0 <= i < r@.len() ==> classify(center, max_distance as int, known@, (#[trigger] r@[i]).0)
                == Some(r@[i].1) && distance(center, r@[i].0) <= max_distance,
        forall|i: int, j: int|
            0 <= i < j < r@.len() ==> key_lt(
                scan_key(center, (#[trigger] r@[i]).0),
                scan_key(center, (#[trigger] r@[j]).0),
            ),
        forall|p: ChunkPosition|
            #[trigger] classify(center, max_distance as int, known@, p) is Some && distance(center, p)
                <= max_distance ==> exists|i: int| 0 <= i < r@.len() && (#[trigger] r@[i]).0 == p,
{
    let ghost m = max_distance as int;
    let mut out: Vec<(ChunkPosition, LoadType)> = Vec::new();
    let mut d: i64 = 0;
    while d <= max_distance as i64
        invariant
            0 <= d <= m + 1,
            m == max_distance as int,
            unique_chunks(known@),
            forall|i: int|
                0 <= i < out@.len() ==> classify(center, m, known@, (#[trigger] out@[i]).0) == Some(
                    out@[i].1,
                ) && distance(center, out@[i].0) <= m,
            forall|i: int, j: int|
                0 <= i < j < out@.len() ==> key_lt(
                    scan_key(center, (#[trigger] out@[i]).0),
                    scan_key(center, (#[trigger] out@[j]).0),
                ),
            forall|i: int|
                0 <= i < out@.len() ==> key_lt(
                    scan_key(center, (#[trigger] out@[i]).0),
                    (d as int, -d, -d, -d),
                ),
            forall|p: ChunkPosition|
                #[trigger] classify(center, m, known@, p) is Some && distance(center, p) <= m && key_lt(
                    scan_key(center, p),
                    (d as int, -d, -d, -d),
                ) ==> exists|i: int| 0 <= i < out@.len() && (#[trigger] out@[i]).0 == p,
        decreases m + 1 - d,
    {
        let mut x: i64 = -d;
        while x <= d
            invariant
                0 <= d <= m,
                -d <= x <= d + 1,
                m == max_distance as int,
                unique_chunks(known@),
                forall|i: int|
                    0 <= i < out@.len() ==> classify(center, m, known@, (#[trigger] out@[i]).0) == Some(
                        out@[i].1,
                    ) && distance(center, out@[i].0) <= m,
                forall|i: int, j: int|
                    0 <= i < j < out@.len() ==> key_lt(
                        scan_key(center, (#[trigger] out@[i]).0),
                        scan_key(center, (#[trigger] out@[j]).0),
                    ),
                forall|i: int|
                    0 <= i < out@.len() ==> key_lt(
                        scan_key(center, (#[trigger] out@[i]).0),
                        (d as int, x as int, -d, -d),
                    ),
                forall|p: ChunkPosition|
                    #[trigger] classify(center, m, known@, p) is Some && distance(center, p) <= m
                        && key_lt(scan_key(center, p), (d as int, x as int, -d, -d)) ==> exists|i: int|
                        0 <= i < out@.len() && (#[trigger] out@[i]).0 == p,
            decreases d + 1 - x,
        {
            let mut y: i64 = -d;
            while y <= d
                invariant
                    0 <= d <= m,
                    -d <= x <= d,
                    -d <= y <= d + 1,
                    m == max_distance as int,
                    unique_chunks(known@),
                    forall|i: int|
                        0 <= i < out@.len() ==> classify(center, m, known@, (#[trigger] out@[i]).0)
                            == Some(out@[i].1) && distance(center, out@[i].0) <= m,
                    forall|i: int, j: int|
                        0 <= i < j < out@.len() ==> key_lt(
                            scan_key(center, (#[trigger] out@[i]).0),
                            scan_key(center, (#[trigger] out@[j]).0),
                        ),
                    forall|i: int|
                        0 <= i < out@.len() ==> key_lt(
                            scan_key(center, (#[trigger] out@[i]).0),
                            (d as int, x as int, y as int, -d),
                        ),
                    forall|p: ChunkPosition|
                        #[trigger] classify(center, m, known@, p) is Some && distance(center, p) <= m
                            && key_lt(scan_key(center, p), (d as int, x as int, y as int, -d))
                            ==> exists|i: int| 0 <= i < out@.len() && (#[trigger] out@[i]).0 == p,
                decreases d + 1 - y,
            {
                let mut z: i64 = -d;
                while z <= d
                    invariant
                        0 <= d <= m,
                        -d <= x <= d,
                        -d <= y <= d,
                        -d <= z <= d + 1,
                        m == max_distance as int,
                        unique_chunks(known@),
                        forall|i: int|
                            0 <= i < out@.len() ==> classify(center, m, known@, (#[trigger] out@[i]).0)
                                == Some(out@[i].1) && distance(center, out@[i].0) <= m,
                        forall|i: int, j: int|
                            0 <= i < j < out@.len() ==> key_lt(
                                scan_key(center, (#[trigger] out@[i]).0),
                                scan_key(center, (#[trigger] out@[j]).0),
                            ),
                        forall|i: int|
                            0 <= i < out@.len() ==> key_lt(
                                scan_key(center, (#[trigger] out@[i]).0),
                                (d as int, x as int, y as int, z as int),
                            ),
                        forall|p: ChunkPosition|
                            #[trigger] classify(center, m, known@, p) is Some && distance(center, p)
                                <= m && key_lt(
                                scan_key(center, p),
                                (d as int, x as int, y as int, z as int),
                            ) ==> exists|i: int| 0 <= i < out@.len() && (#[trigger] out@[i]).0 == p,
                    decreases d + 1 - z,
                {
                    let ax = if x < 0 { -x } else { x };
                    let ay = if y < 0 { -y } else { y };
                    let az = if z < 0 { -z } else { z };
                    let on_shell = (ax == d || ay == d || az == d);
                    let px = center.x as i64 + x;
                    let py = center.y as i64 + y;
                    let pz = center.z as i64 + z;
                    let in_range = -2147483648 <= px && px <= 2147483647 && -2147483648 <= py && py
                        <= 2147483647 && -2147483648 <= pz && pz <= 2147483647;
                    let ghost before = out@;
                    if on_shell && in_range {
                        let p = ChunkPosition { x: px as i32, y: py as i32, z: pz as i32 };
                        assert(scan_key(center, p) == (d as int, x as int, y as int, z as int));
                        match classify_chunk(center, max_distance, known, p) {
                            Some(t) => {
                                out.push((p, t));
                                proof {
                                    assert(out@[before.len() as int] == (p, t));
                                    assert forall|i: int| 0 <= i < before.len() implies out@[i]
                                        == before[i] by {}
                                }
                            },
                            None => {},
                        }
                        proof {
                            assert forall|q: ChunkPosition|
                                #[trigger] classify(center, m, known@, q) is Some && distance(center, q)
                                    <= m && key_lt(
                                    scan_key(center, q),
                                    (d as int, x as int, y as int, z + 1),
                                ) implies exists|i: int|
                                0 <= i < out@.len() && (#[trigger] out@[i]).0 == q by {
                                if scan_key(center, q) == (d as int, x as int, y as int, z as int) {
                                    assert(q == p);
                                    assert(out@[before.len() as int].0 == q);
                                } else {
                                    let i = choose|i: int| 0 <= i < before.len() && (#[trigger] before[i]).0 == q;
                                    assert(out@[i] == before[i]);
                                }
                            }
                        }
                    } else {
                        proof {
                            assert forall|q: ChunkPosition|
                                #[trigger] classify(center, m, known@, q) is Some && distance(center, q)
                                    <= m && key_lt(
                                    scan_key(center, q),
                                    (d as int, x as int, y as int, z + 1),
                                ) implies exists|i: int|
                                0 <= i < out@.len() && (#[trigger] out@[i]).0 == q by {
                                assert(scan_key(center, q) != (d as int, x as int, y as int, z as int));
                            }
                        }
                    }
                    z = z + 1;
                }
                y = y + 1;
            }
            x = x + 1;
        }
        d = d + 1;
    }
    out
}

pub open spec fn sorted_by_distance(center: ChunkPosition, s: Seq<(ChunkPosition, LoadType)>) -> bool {
    forall|a: int, b: int|
        0 <= a < b < s.len() ==> distance(center, (#[trigger] s[a]).0) <= distance(center, (#[trigger] s[b]).0)
}

pub open spec fn distinct_chunks(s: Seq<(ChunkPosition, LoadType)>) -> bool {
    forall|a: int, b: int| 0 <= a < b < s.len() ==> (#[trigger] s[a]).0 != (#[trigger] s[b]).0
}

/// Each entry of `s` unloads one of the first `i` chunks of `known`, beyond `m`.
pub open spec fn unloads_from(
    center: ChunkPosition,
    m: int,
    known: Seq<(ChunkPosition, u32)>,
    i: int,
    s: Seq<(ChunkPosition, LoadType)>,
) -> bool {
    forall|a: int|
        0 <= a < s.len() ==> (#[trigger] s[a]).1 == LoadType::Unload && distance(center, s[a].0) > m
            && exists|k: int| 0 <= k < i && (#[trigger] known[k]).0 == s[a].0
}

/// Each of the first `i` chunks of `known` beyond `m` is in `s`.
pub open spec fn covers_distant(
    center: ChunkPosition,
    m: int,
    known: Seq<(ChunkPosition, u32)>,
    i: int,
    s: Seq<(ChunkPosition, LoadType)>,
) -> bool {
    forall|k: int|
        0 <= k < i && distance(center, (#[trigger] known[k]).0) > m ==> exists|a: int|
            0 <= a < s.len() && (#[trigger] s[a]).0 == known[k].0
}

proof fn lemma_insert_at<A>(before: Seq<A>, j: int, e: A)
    requires
        0 <= j <= before.len(),
    ensures
        before.insert(j, e).len() == before.len() + 1,
        forall|a: int|
            0 <= a < before.len() + 1 ==> #[trigger] before.insert(j, e)[a] == if a < j {
                before[a]
            } else if a == j {
                e
            } else {
                before[a - 1]
            },
{
    before.insert_ensures(j, e);
    assert forall|a: int| 0 <= a < before.len() + 1 implies #[trigger] before.insert(j, e)[a] == if a < j {
        before[a]
    } else if a == j {
        e
    } else {
        before[a - 1]
    } by {
        if a > j {
            assert(before.insert(j, e)[(a - 1) + 1] == before[a - 1]);
        }
    }
}

proof fn lemma_insert_sorted(center: ChunkPosition, before: Seq<(ChunkPosition, LoadType)>, j: int, e: (ChunkPosition, LoadType))
    requires
        0 <= j <= before.len(),
        forall|a: int| 0 <= a < j ==> distance(center, (#[trigger] before[a]).0) <= distance(center, e.0),
        j < before.len() ==> distance(center, before[j].0) > distance(center, e.0),
        sorted_by_distance(center, before),
    ensures
        sorted_by_distance(center, before.insert(j, e)),
{
    let f = before.insert(j, e);
    lemma_insert_at(before, j, e);
    assert forall|a: int| j <= a < before.len() implies distance(center, (#[trigger] before[a]).0) > distance(center, e.0) by {
        if a > j {
            assert(distance(center, before[j].0) <= distance(center, before[a].0));
        }
    }
    assert forall|a: int, b: int| 0 <= a < b < f.len() implies distance(center, (#[trigger] f[a]).0) <= distance(
        center,
        (#[trigger] f[b]).0,
    ) by {
        let a1 = if a < j { a } else { a - 1 };
        let b1 = if b < j { b } else { b - 1 };
        if a != j && b != j {
            assert(f[a] == before[a1] && f[b] == before[b1]);
        } else if a == j {
            assert(f[b] == before[b1]);
        } else {
            assert(f[a] == before[a1]);
        }
    }
}

proof fn lemma_insert_unload(
    center: ChunkPosition,
    m: int,
    known: Seq<(ChunkPosition, u32)>,
    i: int,
    before: Seq<(ChunkPosition, LoadType)>,
    j: int,
)
    requires
        0 <= i < known.len(),
        unique_chunks(known),
        distance(center, known[i].0) > m,
        0 <= j <= before.len(),
        distinct_chunks(before),
        unloads_from(center, m, known, i, before),
        covers_distant(center, m, known, i, before),
    ensures
        ({
            let f = before.insert(j, (known[i].0, LoadType::Unload));
            &&& distinct_chunks(f)
            &&& unloads_from(center, m, known, i + 1, f)
            &&& covers_distant(center, m, known, i + 1, f)
        }),
{
    let e = (known[i].0, LoadType::Unload);
    let f = before.insert(j, e);
    lemma_insert_at(before, j, e);
    assert forall|a: int| 0 <= a < f.len() implies (#[trigger] f[a]).1 == LoadType::Unload && distance(center, f[a].0) > m
        && exists|k: int| 0 <= k < i + 1 && (#[trigger] known[k]).0 == f[a].0 by {
        if a == j {
            assert(known[i].0 == f[a].0);
        } else {
            let a1 = if a < j { a } else { a - 1 };
            assert(f[a] == before[a1]);
            let k = choose|k: int| 0 <= k < i && (#[trigger] known[k]).0 == before[a1].0;
            assert(known[k].0 == f[a].0);
        }
    }
    assert forall|a: int, b: int| 0 <= a < b < f.len() implies (#[trigger] f[a]).0 != (#[trigger] f[b]).0 by {
        let a1 = if a < j { a } else { a - 1 };
        let b1 = if b < j { b } else { b - 1 };
        if a != j && b != j {
            assert(f[a] == before[a1] && f[b] == before[b1]);
        } else if a == j {
            assert(f[b] == before[b1]);
            let k = choose|k: int| 0 <= k < i && (#[trigger] known[k]).0 == before[b1].0;
            assert(known[k].0 != known[i].0);
        } else {
            assert(f[a] == before[a1]);
            let k = choose|k: int| 0 <= k < i && (#[trigger] known[k]).0 == before[a1].0;
            assert(known[k].0 != known[i].0);
        }
    }
    assert forall|k: int| 0 <= k < i + 1 && distance(center, (#[trigger] known[k]).0) > m implies exists|a: int|
        0 <= a < f.len() && (#[trigger] f[a]).0 == known[k].0 by {
        if k < i {
            let a = choose|a: int| 0 <= a < before.len() && (#[trigger] before[a]).0 == known[k].0;
            let a2 = if a < j { a } else { a + 1 };
            assert(f[a2] == before[a]);
        } else {
            assert(f[j].0 == known[k].0);
        }
    }
}

/// Every chunk that `known` records beyond `max_distance` of `center`, to be
/// unloaded, nearest first.
fn distant_unloads(center: ChunkPosition, max_distance: u32, known: &Vec<(ChunkPosition, u32)>) -> (r: Vec<
    (ChunkPosition, LoadType),
>)
    requires
        unique_chunks(known@),
    ensures
        sorted_by_distance(center, r@),
        distinct_chunks(r@),
        unloads_from(center, max_distance as int, known@, known@.len() as int, r@),
        covers_distant(center, max_distance as int, known@, known@.len() as int, r@),
{
    let ghost m = max_distance as int;
    let mut far: Vec<(ChunkPosition, LoadType)> = Vec::new();
    let mut i: usize = 0;
    while i < known.len()
        invariant
            i <= known@.len(),
            m == max_distance as int,
            unique_chunks(known@),
            sorted_by_distance(center, far@),
            distinct_chunks(far@),
            unloads_from(center, m, known@, i as int, far@),
            covers_distant(center, m, known@, i as int, far@),
        decreases known@.len() - i,
    {
        let entry = known[i];
        let d = distance_between(center, entry.0);
        if d > max_distance as i64 {
            let mut j: usize = 0;
            while j < far.len() && distance_between(center, far[j].0) <= d
                invariant
                    j <= far@.len(),
                    forall|a: int| 0 <= a < j ==> distance(center, (#[trigger] far@[a]).0) <= d,
                decreases far@.len() - j,
            {
                j = j + 1;
            }
            proof {
                lemma_insert_sorted(center, far@, j as int, (entry.0, LoadType::Unload));
                lemma_insert_unload(center, m, known@, i as int, far@, j as int);
            }
            far.insert(j, (entry.0, LoadType::Unload));
        } else {
            proof {
                assert forall|a: int| 0 <= a < far@.len() implies exists|k: int|
                    0 <= k < i + 1 && (#[trigger] known@[k]).0 == (#[trigger] far@[a]).0 by {
                    let k = choose|k: int| 0 <= k < i && (#[trigger] known@[k]).0 == far@[a].0;
                }
            }
        }
        i = i + 1;
    }
    far
}

/// What the chunks around an observer at `center` need, given the levels
/// `known` records as loaded, in ascending distance from `center`: every
/// chunk within `max_distance` whose level differs from the one its distance
/// calls for (`Load` where it is coarser or absent, `Downgrade` where it is
/// finer), then every recorded chunk beyond `max_distance` (`Unload`). Each
/// chunk comes once.
pub fn surroundings(center: ChunkPosition, max_distance: u32, known: &Vec<(ChunkPosition, u32)>) -> (r: Vec<
    (ChunkPosition, LoadType),
>)
    requires
        unique_chunks(known@),
    ensures
        forall|i: int|
            0 <= i < r@.len() ==> classify(center, max_distance as int, known@, (#[trigger] r@[i]).0)
                == Some(r@[i].1),
        forall|p: ChunkPosition| #[trigger]
            classify(center, max_distance as int, known@, p) is Some ==> exists|i: int|
                0 <= i < r@.len() && (#[trigger] r@[i]).0 == p,
        forall|i: int, j: int| 0 <= i < j < r@.len() ==> (#[trigger] r@[i]).0 != (#[trigger] r@[j]).0,
        forall|i: int, j: int|
            0 <= i < j < r@.len() ==> distance(center, (#[trigger] r@[i]).0) <= distance(
                center,
                (#[trigger] r@[j]).0,
            ),
{
    let ghost m = max_distance as int;
    let mut out = nearby_changes(center, max_distance, known);
    let mut far = distant_unloads(center, max_distance, known);
    let ghost near = out@;
    let ghost fr = far@;
    let ghost n = near.len();
    out.append(&mut far);
    proof {
        let r = out@;
        assert(r =~= near + fr);
        assert forall|a: int| 0 <= a < r.len() implies classify(center, m, known@, (#[trigger] r[a]).0)
            == Some(r[a].1) by {
            if a < n {
                assert(r[a] == near[a]);
            } else {
                assert(r[a] == fr[a - n]);
                let k = choose|k: int| 0 <= k < known@.len() && (#[trigger] known@[k]).0 == fr[a - n].0;
                assert(exists|j: int| 0 <= j < known@.len() && (#[trigger] known@[j]).0 == r[a].0);
            }
        }
        assert forall|p: ChunkPosition| #[trigger]
            classify(center, m, known@, p) is Some implies exists|a: int|
                0 <= a < r.len() && (#[trigger] r[a]).0 == p by {
            if distance(center, p) <= m {
                let a = choose|a: int| 0 <= a < near.len() && (#[trigger] near[a]).0 == p;
                assert(r[a] == near[a]);
            } else {
                let k = choose|k: int| 0 <= k < known@.len() && (#[trigger] known@[k]).0 == p;
                assert(distance(center, known@[k].0) > m);
                let a = choose|a: int| 0 <= a < fr.len() && (#[trigger] fr[a]).0 == known@[k].0;
                assert(r[a + n] == fr[a]);
            }
        }
        assert forall|a: int, b: int| 0 <= a < b < r.len() implies (#[trigger] r[a]).0 != (#[trigger] r[b]).0
            && distance(center, r[a].0) <= distance(center, r[b].0) by {
            if b < n {
                assert(r[a] == near[a] && r[b] == near[b]);
                assert(key_lt(scan_key(center, near[a].0), scan_key(center, near[b].0)));
            } else if a < n {
                assert(r[a] == near[a]);
                assert(r[b] == fr[b - n]);
            } else {
                assert(r[a] == fr[a - n]);
                assert(r[b] == fr[b - n]);
            }
        }
    }
    out
}

} // verus!
