//! Terrain mesh bookkeeping: triangle counts, vertex colours and the vertex
//! compaction that follows mesh simplification.

use vstd::prelude::*;
use vstd::set_lib::set_int_range;
use crate::cluster::lemma_visit_grows;

verus! {

/// Configuration for mesh generation.
#[derive(Debug, Clone, Copy, PartialEq, Eq, Structural)]
pub struct MeshConfig {
    /// Target number of triangles after decimation (default: 50,000).
    pub target_triangles: usize,
}

impl Default for MeshConfig {
    fn default() -> (c: Self)
        ensures
            c.target_triangles == 50_000,
    {
        MeshConfig { target_triangles: 50_000 }
    }
}

/// Number of triangles an index list describes (three indices each).
pub fn triangle_count(indices: &Vec<u32>) -> (n: usize)
    ensures
        n == indices@.len() / 3,
{
    indices.len() / 3
}

/// Colour given to a vertex whose point has none: green `[0, 128, 0]`.
pub open spec fn default_vertex_color() -> [u8; 3] {
    [0u8, 128u8, 0u8]
}

/// The colour of each vertex: the point's own, or green when it has none.
pub fn vertex_colors(colors: &Vec<Option<[u8; 3]>>) -> (r: Vec<[u8; 3]>)
    ensures
        r@.len() == colors@.len(),
        forall|i: int| 0 <= i < colors@.len() ==> #[trigger] r@[i] == match colors@[i] {
            Some(c) => c,
            None => default_vertex_color(),
        },
{
    let mut r: Vec<[u8; 3]> = Vec::new();
    let mut i: usize = 0;
    while i < colors.len()
        invariant
            i <= colors@.len(),
            r@.len() == i,
            forall|j: int| 0 <= j < i ==> #[trigger] r@[j] == match colors@[j] {
                Some(c) => c,
                None => default_vertex_color(),
            },
        decreases colors@.len() - i,
    {
        let c = match colors[i] {
            Some(c) => c,
            None => [0u8, 128u8, 0u8],
        };
        r.push(c);
        i = i + 1;
    }
    r
}

/// Triangle corner indices narrowed to 32 bits, as glTF stores them.
pub fn indices_to_u32(triangles: &Vec<usize>) -> (r: Vec<u32>)
    ensures
        r@.len() == triangles@.len(),
        forall|i: int| 0 <= i < triangles@.len() ==> #[trigger] r@[i] == triangles@[i] as u32,
{
    let mut r: Vec<u32> = Vec::new();
    let mut i: usize = 0;
    while i < triangles.len()
        invariant
            i <= triangles@.len(),
            r@.len() == i,
            forall|j: int| 0 <= j < i ==> #[trigger] r@[j] == triangles@[j] as u32,
        decreases triangles@.len() - i,
    {
        r.push(triangles[i] as u32);
        i = i + 1;
    }
    r
}

/// Whether a mesh with `index_count` indices is above the target and gets simplified.
pub fn needs_decimation(index_count: usize, target_triangles: usize) -> (r: bool)
    ensures
        r == (index_count / 3 > target_triangles),
{
    index_count / 3 > target_triangles
}

/// The distinct values of `s` in the order of their first appearance.
pub open spec fn first_appearances(s: Seq<u32>) -> Seq<u32>
    decreases s.len(),
{
    if s.len() == 0 {
        Seq::empty()
    } else {
        let d = first_appearances(s.drop_last());
        if d.contains(s.last()) { d } else { d.push(s.last()) }
    }
}

/// The vertices, colours and indices of a simplified mesh.
pub struct CompactedMesh<P, C> {
    pub positions: Vec<P>,
    pub colors: Vec<C>,
    pub indices: Vec<u32>,
}

/// Keep only the vertices that the simplified index list `simplified` uses,
/// in the order in which it first uses them, and renumber the indices to match.
pub fn compact_vertices<P: Copy, C: Copy>(simplified: &Vec<u32>, positions: &Vec<P>, colors: &Vec<C>) -> (r: CompactedMesh<P, C>)
    requires
        positions@.len() < u32::MAX,
        colors@.len() == positions@.len(),
        forall|k: int| 0 <= k < simplified@.len() ==> (#[trigger] simplified@[k]) < positions@.len(),
    ensures
        r.positions@.len() == first_appearances(simplified@).len(),
        r.colors@.len() == first_appearances(simplified@).len(),
        forall|v: int| 0 <= v < r.positions@.len() ==> #[trigger] r.positions@[v] == positions@[first_appearances(simplified@)[v] as int],
        forall|v: int| 0 <= v < r.colors@.len() ==> #[trigger] r.colors@[v] == colors@[first_appearances(simplified@)[v] as int],
        r.indices@.len() == simplified@.len(),
        forall|k: int| 0 <= k < simplified@.len() ==> (#[trigger] r.indices@[k]) < r.positions@.len()
            && first_appearances(simplified@)[r.indices@[k] as int] == simplified@[k],
        forall|k: int| 0 <= k < simplified@.len() ==> r.positions@[#[trigger] r.indices@[k] as int]
            == positions@[simplified@[k] as int] && r.colors@[r.indices@[k] as int] == colors@[simplified@[k] as int],
{
    let vertex_count = positions.len();
    let mut remap: Vec<u32> = Vec::new();
    while remap.len() < vertex_count
        invariant
            remap@.len() <= vertex_count,
            forall|v: int| 0 <= v < remap@.len() ==> remap@[v] == u32::MAX,
        decreases vertex_count - remap@.len(),
    {
        remap.push(u32::MAX);
    }
    let mut new_positions: Vec<P> = Vec::new();
    let mut new_colors: Vec<C> = Vec::new();
    let mut new_count: u32 = 0;
    let ghost mut seen: Set<int> = Set::empty();
    let mut k: usize = 0;
    while k < simplified.len()
        invariant
            seen.subset_of(set_int_range(0, vertex_count as int)),
            seen.len() == new_count,
            forall|v: int| 0 <= v < vertex_count ==> (remap@[v] != u32::MAX <==> #[trigger] seen.contains(v)),
            vertex_count == positions@.len(),
            vertex_count < u32::MAX,
            colors@.len() == vertex_count,
            forall|j: int| 0 <= j < simplified@.len() ==> (#[trigger] simplified@[j]) < vertex_count,
            k <= simplified@.len(),
            remap@.len() == vertex_count,
            new_count == first_appearances(simplified@.take(k as int)).len(),
            new_positions@.len() == new_count,
            new_colors@.len() == new_count,
            forall|v: int| 0 <= v < vertex_count ==>
                (#[trigger] remap@[v] != u32::MAX <==> first_appearances(simplified@.take(k as int)).contains(v as u32)),
            forall|v: int| 0 <= v < vertex_count && remap@[v] != u32::MAX ==>
                (#[trigger] remap@[v]) < new_count && first_appearances(simplified@.take(k as int))[remap@[v] as int] == v,
            forall|w: int| 0 <= w < new_count ==> (#[trigger] first_appearances(simplified@.take(k as int))[w]) < vertex_count,
            forall|w: int| 0 <= w < new_count ==>
                #[trigger] new_positions@[w] == positions@[first_appearances(simplified@.take(k as int))[w] as int],
            forall|w: int| 0 <= w < new_count ==>
                #[trigger] new_colors@[w] == colors@[first_appearances(simplified@.take(k as int))[w] as int],
        decreases simplified@.len() - k,
    {
        let idx = simplified[k] as usize;
        let ghost d0 = first_appearances(simplified@.take(k as int));
        proof {
            assert(simplified@.take(k + 1).drop_last() =~= simplified@.take(k as int));
            assert(simplified@.take(k + 1).last() == simplified@[k as int]);
        }
        if remap[idx] == u32::MAX {
            proof {
                lemma_first_appearances_distinct_bound(simplified@.take(k as int), vertex_count as int);
                lemma_visit_grows(seen, idx as int, vertex_count as int);
                seen = seen.insert(idx as int);
            }
            remap.set(idx, new_count);
            new_positions.push(positions[idx]);
            new_colors.push(colors[idx]);
            new_count = new_count + 1;
            proof {
                let d1 = first_appearances(simplified@.take(k + 1));
                assert(d1 == d0.push(idx as u32));
                assert forall|v: int| 0 <= v < vertex_count implies
                    (#[trigger] remap@[v] != u32::MAX <==> d1.contains(v as u32)) by {
                    if v == idx {
                        assert(d1[d1.len() - 1] == v as u32);
                    } else if d1.contains(v as u32) {
                        let w = choose|w: int| 0 <= w < d1.len() && d1[w] == v as u32;
                        if w < d0.len() {
                            assert(d0.contains(v as u32));
                        }
                    } else if d0.contains(v as u32) {
                        let w = choose|w: int| 0 <= w < d0.len() && d0[w] == v as u32;
                        assert(d1[w] == v as u32);
                    }
                }
            }
        } else {
            proof {
                assert(d0.contains(idx as u32));
                assert(first_appearances(simplified@.take(k + 1)) == d0);
            }
        }
        k = k + 1;
    }
    proof {
        assert(simplified@.take(simplified@.len() as int) =~= simplified@);
    }
    let ghost d = first_appearances(simplified@);
    let mut new_indices: Vec<u32> = Vec::new();
    let mut k: usize = 0;
    while k < simplified.len()
        invariant
            vertex_count == positions@.len(),
            remap@.len() == vertex_count,
            forall|j: int| 0 <= j < simplified@.len() ==> (#[trigger] simplified@[j]) < vertex_count,
            new_count == d.len(),
            d == first_appearances(simplified@),
            forall|v: int| 0 <= v < vertex_count ==> (#[trigger] remap@[v] != u32::MAX <==> d.contains(v as u32)),
            forall|v: int| 0 <= v < vertex_count && remap@[v] != u32::MAX ==>
                (#[trigger] remap@[v]) < new_count && d[remap@[v] as int] == v,
            k <= simplified@.len(),
            new_indices@.len() == k,
            forall|j: int| 0 <= j < k ==> (#[trigger] new_indices@[j]) < new_count && d[new_indices@[j] as int] == simplified@[j],
        decreases simplified@.len() - k,
    {
        let idx = simplified[k] as usize;
        proof {
            lemma_first_appearances_contains(simplified@, k as int);
        }
        new_indices.push(remap[idx]);
        k = k + 1;
    }
    let r = CompactedMesh { positions: new_positions, colors: new_colors, indices: new_indices };
    proof {
        assert forall|k: int| 0 <= k < simplified@.len() implies r.positions@[#[trigger] r.indices@[k] as int]
            == positions@[simplified@[k] as int] && r.colors@[r.indices@[k] as int] == colors@[simplified@[k] as int] by {
            let v = r.indices@[k] as int;
            assert(r.positions@[v] == positions@[first_appearances(simplified@)[v] as int]);
            assert(r.colors@[v] == colors@[first_appearances(simplified@)[v] as int]);
        }
    }
    r
}

/// Each value of `s` is among its first appearances.
proof fn lemma_first_appearances_contains(s: Seq<u32>, k: int)
    requires
        0 <= k < s.len(),
    ensures
        first_appearances(s).contains(s[k]),
    decreases s.len(),
{
    let d = first_appearances(s.drop_last());
    if k < s.len() - 1 {
        lemma_first_appearances_contains(s.drop_last(), k);
        let w = choose|w: int| 0 <= w < d.len() && d[w] == s[k];
        if !d.contains(s.last()) {
            assert(d.push(s.last())[w] == s[k]);
        }
    } else if !d.contains(s.last()) {
        assert(d.push(s.last())[d.len() as int] == s.last());
    }
}

/// The first appearances are distinct values, each below any bound on `s`,
/// so there are no more of them than the bound.
proof fn lemma_first_appearances_distinct_bound(s: Seq<u32>, bound: int)
    requires
        forall|k: int| 0 <= k < s.len() ==> (#[trigger] s[k]) < bound,
    ensures
        first_appearances(s).no_duplicates(),
        forall|w: int| 0 <= w < first_appearances(s).len() ==> (#[trigger] first_appearances(s)[w]) < bound,
    decreases s.len(),
{
    if s.len() > 0 {
        lemma_first_appearances_distinct_bound(s.drop_last(), bound);
    }
}

} // verus!
