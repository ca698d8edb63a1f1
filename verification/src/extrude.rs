//! Topology of a zone extruded from its outline: which outline corner and
//! which level each vertex takes, and the triangle indices of the top face,
//! the bottom face and the side walls.

use vstd::prelude::*;

verus! {

/// The outline corner and the level (top or bottom face) a vertex is placed at.
#[derive(Debug, Clone, Copy, PartialEq, Eq, Structural)]
pub struct VertexSource {
    /// Index of the outline corner.
    pub corner: usize,
    /// Whether the vertex lies on the top face (else on the bottom face).
    pub top: bool,
}

/// Number of distinct corners of a closed outline of `closed_len` points (the
/// last repeats the first), or `None` when there are fewer than three and no
/// mesh is built.
pub fn ring_corner_count(closed_len: usize) -> (r: Option<usize>)
    ensures
        closed_len < 4 ==> r is None,
        closed_len >= 4 ==> r == Some((closed_len - 1) as usize),
{
    if closed_len < 4 { None } else { Some(closed_len - 1) }
}

/// Source of vertex `v` of a zone with `ring` corners: the top face's `ring`
/// vertices, the bottom face's `ring` vertices, then four vertices per side
/// wall (top of corner `i`, top of the next corner, bottom of the next
/// corner, bottom of corner `i`).
pub open spec fn vertex_source(ring: int, v: int) -> VertexSource {
    if v < ring {
        VertexSource { corner: v as usize, top: true }
    } else if v < 2 * ring {
        VertexSource { corner: (v - ring) as usize, top: false }
    } else {
        let w = v - 2 * ring;
        let i = w / 4;
        let j = (i + 1) % ring;
        if w % 4 == 0 {
            VertexSource { corner: i as usize, top: true }
        } else if w % 4 == 1 {
            VertexSource { corner: j as usize, top: true }
        } else if w % 4 == 2 {
            VertexSource { corner: j as usize, top: false }
        } else {
            VertexSource { corner: i as usize, top: false }
        }
    }
}

/// Index `k` of the side walls: two triangles per wall quad `(b, b+2, b+1)`
/// and `(b, b+3, b+2)` with `b` the quad's first vertex.
pub open spec fn wall_index(ring: int, k: int) -> int {
    let base = 2 * ring + 4 * (k / 6);
    let m = k % 6;
    if m == 0 || m == 3 { base }
    else if m == 1 || m == 5 { base + 2 }
    else if m == 2 { base + 1 }
    else { base + 3 }
}

/// Triangle indices of the extruded zone: the top face as triangulated, the
/// bottom face with each triangle's winding reversed, then the side walls.
pub open spec fn extrusion_indices(ring: int, face: Seq<usize>) -> Seq<u32> {
    let whole = 3 * (face.len() / 3);
    Seq::new(face.len(), |k: int| face[k] as u32)
        + Seq::new(whole as nat, |k: int| (ring + face[3 * (k / 3) + 2 - k % 3]) as u32)
        + Seq::new((6 * ring) as nat, |k: int| wall_index(ring, k) as u32)
}

/// Vertex sources and triangle indices of a zone mesh.
pub struct ExtrusionTopology {
    pub vertices: Vec<VertexSource>,
    pub indices: Vec<u32>,
}

/// Topology of a zone with `ring` outline corners whose face triangulates to
/// `face` (corner indices, three per triangle).
pub fn extrusion_topology(ring: usize, face: &Vec<usize>) -> (t: ExtrusionTopology)
    requires
        ring >= 1,
        6 * ring <= u32::MAX,
        face@.len() + 6 * ring <= usize::MAX / 2,
        forall|k: int| 0 <= k < face@.len() ==> (#[trigger] face@[k]) < ring,
    ensures
        t.vertices@.len() == 6 * ring,
        forall|v: int| 0 <= v < 6 * ring ==> #[trigger] t.vertices@[v] == vertex_source(ring as int, v),
        t.indices@ == extrusion_indices(ring as int, face@),
        forall|k: int| 0 <= k < t.indices@.len() ==> (#[trigger] t.indices@[k]) < 6 * ring,
{
    let mut vertices: Vec<VertexSource> = Vec::new();
    let mut indices: Vec<u32> = Vec::new();
    let ghost r = ring as int;
    // top face
    let mut c: usize = 0;
    while c < ring
        invariant
            c <= ring,
            vertices@.len() == c,
            forall|v: int| 0 <= v < c ==> #[trigger] vertices@[v] == vertex_source(r, v),
            r == ring,
        decreases ring - c,
    {
        vertices.push(VertexSource { corner: c, top: true });
        c = c + 1;
    }
    let mut k: usize = 0;
    while k < face.len()
        invariant
            k <= face@.len(),
            indices@ == Seq::new(k as nat, |q: int| face@[q] as u32),
        decreases face@.len() - k,
    {
        indices.push(face[k] as u32);
        k = k + 1;
        proof {
            assert(indices@ =~= Seq::new(k as nat, |q: int| face@[q] as u32));
        }
    }
    // bottom face, reversed winding
    let mut c: usize = 0;
    while c < ring
        invariant
            c <= ring,
            r == ring,
            vertices@.len() == ring + c,
            forall|v: int| 0 <= v < ring + c ==> #[trigger] vertices@[v] == vertex_source(r, v),
        decreases ring - c,
    {
        vertices.push(VertexSource { corner: c, top: false });
        c = c + 1;
    }
    let ghost top_part = indices@;
    let whole = face.len() / 3 * 3;
    let mut k: usize = 0;
    while k < whole
        invariant
            r == ring,
            6 * ring <= u32::MAX,
            whole == 3 * (face@.len() / 3),
            k <= whole,
            k % 3 == 0,
            forall|q: int| 0 <= q < face@.len() ==> (#[trigger] face@[q]) < ring,
            indices@ == top_part + Seq::new(k as nat, |q: int| (r + face@[3 * (q / 3) + 2 - q % 3]) as u32),
        decreases whole - k,
    {
        indices.push((ring + face[k + 2]) as u32);
        indices.push((ring + face[k + 1]) as u32);
        indices.push((ring + face[k]) as u32);
        k = k + 3;
        proof {
            assert(indices@ =~= top_part + Seq::new(k as nat, |q: int| (r + face@[3 * (q / 3) + 2 - q % 3]) as u32));
        }
    }
    let ghost faces_part = indices@;
    // side walls
    let mut i: usize = 0;
    while i < ring
        invariant
            r == ring,
            6 * ring <= u32::MAX,
            i <= ring,
            vertices@.len() == 2 * ring + 4 * i,
            forall|v: int| 0 <= v < 2 * ring + 4 * i ==> #[trigger] vertices@[v] == vertex_source(r, v),
            indices@ == faces_part + Seq::new((6 * i) as nat, |q: int| wall_index(r, q) as u32),
        decreases ring - i,
    {
        let j = (i + 1) % ring;
        let base = 2 * ring + 4 * i;
        vertices.push(VertexSource { corner: i, top: true });
        vertices.push(VertexSource { corner: j, top: true });
        vertices.push(VertexSource { corner: j, top: false });
        vertices.push(VertexSource { corner: i, top: false });
        let b = base as u32;
        indices.push(b);
        indices.push(b + 2);
        indices.push(b + 1);
        indices.push(b);
        indices.push(b + 3);
        indices.push(b + 2);
        proof {
            assert forall|v: int| 0 <= v < 2 * ring + 4 * (i + 1) implies #[trigger] vertices@[v] == vertex_source(r, v) by {
                if v >= 2 * ring + 4 * i {
                    let w = v - 2 * r;
                    assert(w / 4 == i);
                }
            }
            assert forall|q: int| 6 * i <= q < 6 * (i + 1) implies wall_index(r, q) == base + (if q % 6 == 0 || q % 6 == 3 { 0int } else if q % 6 == 1 || q % 6 == 5 { 2int } else if q % 6 == 2 { 1int } else { 3int }) by {
                assert(q / 6 == i);
            }
            assert(indices@ =~= faces_part + Seq::new((6 * (i + 1)) as nat, |q: int| wall_index(r, q) as u32));
        }
        i = i + 1;
    }
    proof {
        assert(indices@ =~= extrusion_indices(r, face@));
        assert forall|k: int| 0 <= k < indices@.len() implies (#[trigger] indices@[k]) < 6 * ring by {
            let fl = face@.len() as int;
            let whole_i = 3 * (fl / 3);
            if k < fl {
                assert(indices@[k] == face@[k] as u32);
            } else if k < fl + whole_i {
                let q = k - fl;
                assert(3 * (q / 3) + 2 - q % 3 < fl);
            } else {
                let q = k - fl - whole_i;
                assert(q / 6 < r);
            }
        }
    }
    ExtrusionTopology { vertices, indices }
}

/// Vertex `m` (0 to 3) of side wall `i` of a zone with `ring` corners.
pub open spec fn wall_vertex(ring: int, i: int, m: int) -> VertexSource {
    vertex_source(ring, 2 * ring + 4 * i + m)
}

/// The vertices of an extruded zone: the top face holds every corner once at
/// the top level and the bottom face every corner once at the bottom level,
/// in corner order; side wall `i` joins corner `i` and the next corner
/// `(i + 1) % ring` of the outline (top of `i`, top of the next, bottom of
/// the next, bottom of `i`), so every outline edge gets one wall and, with two
/// or more corners, no wall collapses onto a single corner.
pub proof fn extrusion_vertices_follow_outline(ring: int)
    requires
        1 <= ring <= usize::MAX,
    ensures
        forall|c: int| 0 <= c < ring ==> (#[trigger] vertex_source(ring, c)).corner == c && vertex_source(ring, c).top,
        forall|c: int| ring <= c < 2 * ring ==> (#[trigger] vertex_source(ring, c)).corner == c - ring && !vertex_source(ring, c).top,
        forall|i: int| 0 <= i < ring ==> {
            let next = if i + 1 == ring { 0 } else { i + 1 };
            &&& (#[trigger] wall_vertex(ring, i, 0)).corner == i && wall_vertex(ring, i, 0).top
            &&& wall_vertex(ring, i, 1).corner == next && wall_vertex(ring, i, 1).top
            &&& wall_vertex(ring, i, 2).corner == next && !wall_vertex(ring, i, 2).top
            &&& wall_vertex(ring, i, 3).corner == i && !wall_vertex(ring, i, 3).top
            &&& ring >= 2 ==> wall_vertex(ring, i, 0).corner != wall_vertex(ring, i, 1).corner
        },
{
    assert forall|i: int| 0 <= i < ring implies {
        let next = if i + 1 == ring { 0 } else { i + 1 };
        &&& (#[trigger] wall_vertex(ring, i, 0)).corner == i && wall_vertex(ring, i, 0).top
        &&& wall_vertex(ring, i, 1).corner == next && wall_vertex(ring, i, 1).top
        &&& wall_vertex(ring, i, 2).corner == next && !wall_vertex(ring, i, 2).top
        &&& wall_vertex(ring, i, 3).corner == i && !wall_vertex(ring, i, 3).top
        &&& ring >= 2 ==> wall_vertex(ring, i, 0).corner != wall_vertex(ring, i, 1).corner
    } by {
        let next = if i + 1 == ring { 0 } else { i + 1 };
        assert((4 * i) / 4 == i && (4 * i) % 4 == 0);
        assert((4 * i + 1) / 4 == i && (4 * i + 1) % 4 == 1);
        assert((4 * i + 2) / 4 == i && (4 * i + 2) % 4 == 2);
        assert((4 * i + 3) / 4 == i && (4 * i + 3) % 4 == 3);
        assert((i + 1) % ring == next) by (nonlinear_arith)
            requires
                0 <= i < ring,
                next == (if i + 1 == ring { 0 } else { i + 1 }),
        ;
    }
}

/// The triangles of the side walls: wall `i` is the two triangles
/// `(b, b + 2, b + 1)` and `(b, b + 3, b + 2)` over its four vertices
/// `b = 2 * ring + 4 * i`, and together they follow the top and bottom faces.
pub proof fn extrusion_wall_triangles(ring: int, face: Seq<usize>, i: int)
    requires
        ring >= 1,
        6 * ring <= u32::MAX,
        0 <= i < ring,
    ensures
        ({
            let idx = extrusion_indices(ring, face);
            let start = face.len() + 3 * (face.len() / 3) + 6 * i;
            let b = 2 * ring + 4 * i;
            &&& idx.len() == face.len() + 3 * (face.len() / 3) + 6 * ring
            &&& idx[start] == b && idx[start + 1] == b + 2 && idx[start + 2] == b + 1
            &&& idx[start + 3] == b && idx[start + 4] == b + 3 && idx[start + 5] == b + 2
        }),
{
    let fl = face.len() as int;
    let whole = 3 * (fl / 3);
    let idx = extrusion_indices(ring, face);
    let tops = Seq::new(face.len(), |k: int| face[k] as u32);
    let bottoms = Seq::new(whole as nat, |k: int| (ring + face[3 * (k / 3) + 2 - k % 3]) as u32);
    let walls = Seq::new((6 * ring) as nat, |k: int| wall_index(ring, k) as u32);
    assert(idx == tops + bottoms + walls);
    assert((tops + bottoms).len() == fl + whole);
    assert forall|m: int| 0 <= m < 6 implies #[trigger] idx[fl + whole + 6 * i + m] == wall_index(ring, 6 * i + m) as u32 by {
        assert(idx[fl + whole + 6 * i + m] == walls[6 * i + m]);
    }
    assert forall|m: int| 0 <= m < 6 implies #[trigger] wall_index(ring, 6 * i + m) == 2 * ring + 4 * i + (if m == 0 || m == 3 { 0int } else if m == 1 || m == 5 { 2int } else if m == 2 { 1int } else { 3int }) by {
        assert((6 * i + m) / 6 == i && (6 * i + m) % 6 == m);
    }
    assert(idx[fl + whole + 6 * i + 0] == wall_index(ring, 6 * i + 0) as u32);
    assert(idx[fl + whole + 6 * i + 1] == wall_index(ring, 6 * i + 1) as u32);
    assert(idx[fl + whole + 6 * i + 2] == wall_index(ring, 6 * i + 2) as u32);
    assert(idx[fl + whole + 6 * i + 3] == wall_index(ring, 6 * i + 3) as u32);
    assert(idx[fl + whole + 6 * i + 4] == wall_index(ring, 6 * i + 4) as u32);
    assert(idx[fl + whole + 6 * i + 5] == wall_index(ring, 6 * i + 5) as u32);
    assert(wall_index(ring, 6 * i + 0) == 2 * ring + 4 * i);
    assert(wall_index(ring, 6 * i + 1) == 2 * ring + 4 * i + 2);
    assert(wall_index(ring, 6 * i + 2) == 2 * ring + 4 * i + 1);
    assert(wall_index(ring, 6 * i + 3) == 2 * ring + 4 * i);
    assert(wall_index(ring, 6 * i + 4) == 2 * ring + 4 * i + 3);
    assert(wall_index(ring, 6 * i + 5) == 2 * ring + 4 * i + 2);
}

/// The face triangles of an extruded zone: the top face keeps every
/// triangle of the triangulation as given, and the bottom face repeats each
/// whole triangle on the bottom vertices (corner index plus `ring`) with its
/// winding reversed, so it faces down.
pub proof fn extrusion_face_triangles(ring: int, face: Seq<usize>)
    requires
        ring >= 1,
        6 * ring <= u32::MAX,
        forall|k: int| 0 <= k < face.len() ==> (#[trigger] face[k]) < ring,
    ensures
        forall|k: int| 0 <= k < face.len() ==> #[trigger] extrusion_indices(ring, face)[k] == face[k],
        forall|t: int, m: int| 0 <= t < face.len() / 3 && 0 <= m < 3 ==>
            #[trigger] extrusion_indices(ring, face)[face.len() + 3 * t + m] == ring + face[3 * t + 2 - m],
{
    let fl = face.len() as int;
    let whole = 3 * (fl / 3);
    let idx = extrusion_indices(ring, face);
    let tops = Seq::new(face.len(), |k: int| face[k] as u32);
    let bottoms = Seq::new(whole as nat, |k: int| (ring + face[3 * (k / 3) + 2 - k % 3]) as u32);
    let walls = Seq::new((6 * ring) as nat, |k: int| wall_index(ring, k) as u32);
    assert(idx == tops + bottoms + walls);
    assert forall|k: int| 0 <= k < fl implies #[trigger] idx[k] == face[k] by {
        assert(idx[k] == tops[k]);
    }
    assert forall|t: int, m: int| 0 <= t < fl / 3 && 0 <= m < 3 implies
        #[trigger] idx[fl + 3 * t + m] == ring + face[3 * t + 2 - m] by {
        assert((3 * t + m) / 3 == t && (3 * t + m) % 3 == m);
        assert(3 * t + m < whole);
        assert(idx[fl + 3 * t + m] == bottoms[3 * t + m]);
        assert(face[3 * t + 2 - m] < ring);
    }
}

} // verus!
