use vstd::prelude::*;
use crate::bounds::Bounds3;
use crate::bvh::{arc_clone, lemma_map_multiset, tree_layout, Bvh, Primitive, SplitMethod};
use crate::vector::Vector3;
use std::sync::Arc;

verus! {

/// A triangle of a mesh: the indices of its three vertices in the mesh's
/// shared position, normal and texture coordinate arrays.
pub struct Triangle {
    a: usize,
    b: usize,
    c: usize,
    positions: Arc<Vec<Vector3<i32>>>,
    normals: Arc<Vec<Vector3<i32>>>,
    texcoords: Arc<Vec<Vector3<i32>>>,
}

/// The smallest box holding the three points.
pub open spec fn triangle_bounds(pa: Vector3<i32>, pb: Vector3<i32>, pc: Vector3<i32>) -> Bounds3<i32> {
    Bounds3 {
        p_min: Vector3 { x: min3(pa.x, pb.x, pc.x), y: min3(pa.y, pb.y, pc.y), z: min3(pa.z, pb.z, pc.z) },
        p_max: Vector3 { x: max3(pa.x, pb.x, pc.x), y: max3(pa.y, pb.y, pc.y), z: max3(pa.z, pb.z, pc.z) },
    }
}

/// The least of three integers.
pub open spec fn min3(a: i32, b: i32, c: i32) -> i32 {
    if a <= b && a <= c {
        a
    } else if b <= c {
        b
    } else {
        c
    }
}

/// The greatest of three integers.
pub open spec fn max3(a: i32, b: i32, c: i32) -> i32 {
    if a >= b && a >= c {
        a
    } else if b >= c {
        b
    } else {
        c
    }
}

/// The greatest of three integers is at least each of them and is one of
/// them; the least is at most each of them and is one of them.
pub proof fn law_min3_max3(a: i32, b: i32, c: i32)
    ensures
        a <= max3(a, b, c) && b <= max3(a, b, c) && c <= max3(a, b, c),
        max3(a, b, c) == a || max3(a, b, c) == b || max3(a, b, c) == c,
        min3(a, b, c) <= a && min3(a, b, c) <= b && min3(a, b, c) <= c,
        min3(a, b, c) == a || min3(a, b, c) == b || min3(a, b, c) == c,
{
}

/// `p` lies in the box `b`: between its corners on every axis.
pub open spec fn box_holds(b: Bounds3<i32>, p: Vector3<i32>) -> bool {
    &&& b.p_min.x <= p.x <= b.p_max.x
    &&& b.p_min.y <= p.y <= b.p_max.y
    &&& b.p_min.z <= p.z <= b.p_max.z
}

/// The box of a triangle holds its three vertices, and each of its faces
/// passes through one of them: it is the smallest box holding them.
pub proof fn law_triangle_bounds_tight(pa: Vector3<i32>, pb: Vector3<i32>, pc: Vector3<i32>)
    ensures
        box_holds(triangle_bounds(pa, pb, pc), pa),
        box_holds(triangle_bounds(pa, pb, pc), pb),
        box_holds(triangle_bounds(pa, pb, pc), pc),
        forall|q: Bounds3<i32>|
            box_holds(q, pa) && box_holds(q, pb) && box_holds(q, pc) ==> #[trigger] crate::bounds::encloses(
                q,
                triangle_bounds(pa, pb, pc),
            ),
{
    let t = triangle_bounds(pa, pb, pc);
    law_min3_max3(pa.x, pb.x, pc.x);
    law_min3_max3(pa.y, pb.y, pc.y);
    law_min3_max3(pa.z, pb.z, pc.z);
    assert forall|q: Bounds3<i32>|
        box_holds(q, pa) && box_holds(q, pb) && box_holds(q, pc) implies #[trigger] crate::bounds::encloses(q, t) by {
        assert forall|i: int| 0 <= i < 3 implies crate::bounds::coord(q.p_min, i) <= #[trigger] crate::bounds::coord(
            t.p_min,
            i,
        ) && crate::bounds::coord(t.p_max, i) <= crate::bounds::coord(q.p_max, i) by {}
    }
}

/// The world bounds of a triangle hold its three vertices.
pub proof fn law_triangle_world_bounds_hold_vertices(t: Triangle)
    requires
        t.vertices().0 < t.positions().len(),
        t.vertices().1 < t.positions().len(),
        t.vertices().2 < t.positions().len(),
    ensures
        box_holds(t.world_bounds_spec(), t.positions()[t.vertices().0 as int]),
        box_holds(t.world_bounds_spec(), t.positions()[t.vertices().1 as int]),
        box_holds(t.world_bounds_spec(), t.positions()[t.vertices().2 as int]),
{
    law_triangle_bounds_tight(
        t.positions()[t.vertices().0 as int],
        t.positions()[t.vertices().1 as int],
        t.positions()[t.vertices().2 as int],
    );
}

fn min3_exec(a: i32, b: i32, c: i32) -> (r: i32)
    ensures
        r == min3(a, b, c),
{
    if a <= b && a <= c {
        a
    } else if b <= c {
        b
    } else {
        c
    }
}

fn max3_exec(a: i32, b: i32, c: i32) -> (r: i32)
    ensures
        r == max3(a, b, c),
{
    if a >= b && a >= c {
        a
    } else if b >= c {
        b
    } else {
        c
    }
}

impl Triangle {
    #[verifier::type_invariant]
    closed spec fn inv(&self) -> bool {
        &&& self.a < self.positions@.len()
        &&& self.b < self.positions@.len()
        &&& self.c < self.positions@.len()
    }

    /// The vertex indices.
    pub closed spec fn vertices(&self) -> (usize, usize, usize) {
        (self.a, self.b, self.c)
    }

    /// The positions of the mesh's vertices.
    pub closed spec fn positions(&self) -> Seq<Vector3<i32>> {
        self.positions@
    }

    /// The normals of the mesh's vertices.
    pub closed spec fn normals(&self) -> Seq<Vector3<i32>> {
        self.normals@
    }

    /// The texture coordinates of the mesh's vertices.
    pub closed spec fn texcoords(&self) -> Seq<Vector3<i32>> {
        self.texcoords@
    }

    /// The triangle over vertices `a`, `b` and `c` of the given arrays; the
    /// three must be positions of the mesh.
    pub fn new(
        a: usize,
        b: usize,
        c: usize,
        positions: Arc<Vec<Vector3<i32>>>,
        normals: Arc<Vec<Vector3<i32>>>,
        texcoords: Arc<Vec<Vector3<i32>>>,
    ) -> (r: Self)
        requires
            a < positions@.len(),
            b < positions@.len(),
            c < positions@.len(),
        ensures
            r.vertices() == (a, b, c),
            r.positions() == positions@,
            r.normals() == normals@,
            r.texcoords() == texcoords@,
    {
        Triangle { a, b, c, positions, normals, texcoords }
    }
}

impl Primitive for Triangle {
    open spec fn world_bounds_spec(&self) -> Bounds3<i32> {
        triangle_bounds(
            self.positions()[self.vertices().0 as int],
            self.positions()[self.vertices().1 as int],
            self.positions()[self.vertices().2 as int],
        )
    }

    /// The box around the three vertices.
    fn world_bounds(&self) -> (r: Bounds3<i32>) {
        proof {
            use_type_invariant(self);
        }
        let pa = self.positions[self.a];
        let pb = self.positions[self.b];
        let pc = self.positions[self.c];
        Bounds3 {
            p_min: Vector3::new(min3_exec(pa.x, pb.x, pc.x), min3_exec(pa.y, pb.y, pc.y), min3_exec(pa.z, pb.z, pc.z)),
            p_max: Vector3::new(max3_exec(pa.x, pb.x, pc.x), max3_exec(pa.y, pb.y, pc.y), max3_exec(pa.z, pb.z, pc.z)),
        }
    }
}

/// A triangle mesh held in a BVH of its triangles.
pub struct Mesh {
    pub bvh: Bvh<Triangle>,
}

/// The vertex indices of triangle `t`: entries `3t` to `3t + 2` of `indices`.
pub open spec fn triangle_indices(indices: Seq<u32>, t: int) -> (usize, usize, usize) {
    (indices[3 * t] as usize, indices[3 * t + 1] as usize, indices[3 * t + 2] as usize)
}

/// The vertex indices of a triangle.
pub open spec fn vertices_of(t: Arc<Triangle>) -> (usize, usize, usize) {
    t.vertices()
}

impl Mesh {
    /// The mesh of the triangles that `indices` lists three vertices each,
    /// over the given vertex arrays, in a BVH with at most 16 triangles per
    /// leaf split by the surface area heuristic.
    pub fn new(
        positions: Arc<Vec<Vector3<i32>>>,
        normals: Arc<Vec<Vector3<i32>>>,
        texcoords: Arc<Vec<Vector3<i32>>>,
        indices: Vec<u32>,
    ) -> (r: Mesh)
        requires
            indices@.len() % 3 == 0,
            indices@.len() >= 3,
            indices@.len() / 3 <= u32::MAX,
            forall|i: int| 0 <= i < indices@.len() ==> (#[trigger] indices@[i] as int) < positions@.len(),
        ensures
            r.bvh.max_prims_per_node() == 16,
            r.bvh.primitives().map_values(|t: Arc<Triangle>| vertices_of(t)).to_multiset() == Seq::new(
                (indices@.len() / 3) as nat,
                |t: int| triangle_indices(indices@, t),
            ).to_multiset(),
            forall|j: int|
                0 <= j < r.bvh.primitives().len() ==> {
                    let t = #[trigger] r.bvh.primitives()[j];
                    &&& t.positions() == positions@
                    &&& t.normals() == normals@
                    &&& t.texcoords() == texcoords@
                },
            tree_layout(r.bvh.nodes(), (indices@.len() / 3) as int),
    {
        let len = indices.len();
        let n = len / 3;
        let mut triangles: Vec<Arc<Triangle>> = Vec::with_capacity(n);
        let mut t: usize = 0;
        while t < n
            invariant
                len == indices@.len(),
                n == len / 3,
                len % 3 == 0,
                forall|i: int| 0 <= i < indices@.len() ==> (#[trigger] indices@[i] as int) < positions@.len(),
                t <= n,
                triangles@.len() == t,
                forall|k: int| 0 <= k < t ==> #[trigger] vertices_of(triangles@[k]) == triangle_indices(indices@, k),
                forall|k: int|
                    0 <= k < t ==> {
                        let tri = #[trigger] triangles@[k];
                        &&& tri.positions() == positions@
                        &&& tri.normals() == normals@
                        &&& tri.texcoords() == texcoords@
                    },
            decreases n - t,
        {
            let i = 3 * t;
            let tri = Triangle::new(
                indices[i] as usize,
                indices[i + 1] as usize,
                indices[i + 2] as usize,
                arc_clone(&positions),
                arc_clone(&normals),
                arc_clone(&texcoords),
            );
            triangles.push(Arc::new(tri));
            t += 1;
        }
        let ghost tris = triangles@;
        let bvh = Bvh::new(16, triangles.as_slice(), SplitMethod::Sah);
        proof {
            lemma_map_multiset(bvh.primitives(), tris, |t: Arc<Triangle>| vertices_of(t));
            assert(tris.map_values(|t: Arc<Triangle>| vertices_of(t)) =~= Seq::new(
                n as nat,
                |t: int| triangle_indices(indices@, t),
            ));
            assert forall|j: int| 0 <= j < bvh.primitives().len() implies {
                let t = #[trigger] bvh.primitives()[j];
                &&& t.positions() == positions@
                &&& t.normals() == normals@
                &&& t.texcoords() == texcoords@
            } by {
                let t = bvh.primitives()[j];
                bvh.primitives().to_multiset_ensures();
                tris.to_multiset_ensures();
                assert(bvh.primitives().contains(t));
                assert(bvh.primitives().to_multiset() == tris.to_multiset());
                assert(tris.to_multiset().count(t) > 0);
                assert(tris.contains(t));
                let k = choose|k: int| 0 <= k < tris.len() && tris[k] == t;
                assert(tris[k].positions() == positions@);
            }
        }
        Mesh { bvh }
    }
}

/// Whether a model read from a mesh file can become a mesh: shading needs
/// its normals and its texture coordinates, so it has to have both.
pub fn has_shading_data(n_normals: usize, n_texcoords: usize) -> (r: bool)
    ensures
        r == (n_normals > 0 && n_texcoords > 0),
{
    n_normals != 0 && n_texcoords != 0
}

} // verus!
