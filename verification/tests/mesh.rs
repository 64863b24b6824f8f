use pbr::bounds::Bounds3;
use pbr::bvh::Primitive;
use pbr::mesh::{Mesh, Triangle};
use pbr::vector::Vector3;
use std::sync::Arc;

fn grid() -> (Arc<Vec<Vector3<i32>>>, Vec<u32>) {
    // A 3 x 3 grid of vertices, two triangles per cell.
    let mut positions = Vec::new();
    for y in 0..3 {
        for x in 0..3 {
            positions.push(Vector3::new(x * 10, y * 10, x * y));
        }
    }
    let mut indices = Vec::new();
    for y in 0..2u32 {
        for x in 0..2u32 {
            let v = y * 3 + x;
            indices.extend_from_slice(&[v, v + 1, v + 3, v + 1, v + 4, v + 3]);
        }
    }
    (Arc::new(positions), indices)
}

#[test]
fn triangle_bounds_hold_its_vertices() {
    let positions = Arc::new(vec![Vector3::new(0, 5, -1), Vector3::new(3, -2, 4), Vector3::new(-7, 1, 2)]);
    let empty = Arc::new(Vec::new());
    let t = Triangle::new(0, 1, 2, positions, empty.clone(), empty);
    assert_eq!(
        t.world_bounds(),
        Bounds3 { p_min: Vector3::new(-7, -2, -1), p_max: Vector3::new(3, 5, 4) }
    );
}

#[test]
fn mesh_puts_every_triangle_in_its_bvh() {
    let (positions, indices) = grid();
    let empty = Arc::new(Vec::new());
    let mesh = Mesh::new(positions, empty.clone(), empty, indices);
    assert_eq!(mesh.bvh.get_primitives().len(), 8);
    assert_eq!(mesh.bvh.get_max_prims_per_node(), 16);
    assert_eq!(mesh.bvh.world_bounds(), Bounds3 { p_min: Vector3::new(0, 0, 0), p_max: Vector3::new(20, 20, 4) });
    // A box query finds the triangles whose bounds hold the point.
    let p = (15, 5, 1);
    let holds = |b: &Bounds3<i32>| {
        b.p_min.x <= p.0 && p.0 <= b.p_max.x && b.p_min.y <= p.1 && p.1 <= b.p_max.y && b.p_min.z <= p.2
            && p.2 <= b.p_max.z
    };
    assert!(mesh.bvh.intersect_p([false; 3], holds, |t: &Arc<Triangle>| holds(&t.world_bounds())));
    let far = |b: &Bounds3<i32>| b.p_max.x > 100;
    assert!(!mesh.bvh.intersect_p([false; 3], far, |t: &Arc<Triangle>| far(&t.world_bounds())));
}

#[test]
fn models_need_normals_and_texture_coordinates() {
    assert!(pbr::mesh::has_shading_data(9, 6));
    assert!(!pbr::mesh::has_shading_data(0, 6));
    assert!(!pbr::mesh::has_shading_data(9, 0));
}
