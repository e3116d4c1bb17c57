use transform3d::object3d::{Object3D, Scene, SceneError, UpdateStep};

fn new_scene_with(n: usize) -> (Scene, Vec<usize>) {
    let mut scene = Scene::new();
    let mut ids = Vec::new();
    for _ in 0..n {
        ids.push(scene.add_object(Object3D::new()));
    }
    (scene, ids)
}

#[test]
fn fresh_node_has_identity_defaults() {
    let node = Object3D::new();
    assert_eq!(node.parent, None);
    assert!(node.children.is_empty());
    assert_eq!(node.position, (0, 0, 0));
    assert_eq!(node.quaternion, (0, 0, 0, 1.0f32.to_bits()));
    assert_eq!(
        node.scale,
        (1.0f32.to_bits(), 1.0f32.to_bits(), 1.0f32.to_bits())
    );
    assert_eq!(node.up, (0, 1.0f32.to_bits(), 0));
    assert!(node.matrix_auto_update);
    assert!(!node.matrix_world_needs_update);
    assert!(node.visible);
    assert!(!node.cast_shadow);
    assert!(!node.receive_shadow);
    assert!(node.frustum_culled);
    assert_eq!(node.render_order, 0);
    // the identity matrix encoding: ones on the diagonal
    for i in 0..16 {
        let expected = if i % 5 == 0 { 1.0f32.to_bits() } else { 0 };
        assert_eq!(node.matrix[i], expected);
        assert_eq!(node.matrix_world[i], expected);
    }
    // a version-4 identifier
    assert_eq!((node.id >> 76) & 0xf, 4);
}

#[test]
fn node_ids_are_distinct() {
    let a = Object3D::new();
    let b = Object3D::new();
    assert_ne!(a.id, b.id);
}

#[test]
fn add_attaches_child() {
    let (mut scene, ids) = new_scene_with(2);
    assert_eq!(scene.add(ids[0], ids[1]), Ok(()));
    assert_eq!(scene.get(ids[1]).parent, Some(ids[0]));
    assert_eq!(scene.get(ids[0]).children, vec![ids[1]]);
}

#[test]
fn reparenting_moves_the_child() {
    // after parent_x.add(child) then parent_y.add(child), the child is
    // listed under parent_y and no longer under parent_x
    let (mut scene, ids) = new_scene_with(3);
    let (parent_x, parent_y, child) = (ids[0], ids[1], ids[2]);
    assert_eq!(scene.add(parent_x, child), Ok(()));
    assert_eq!(scene.add(parent_y, child), Ok(()));
    assert_eq!(scene.get(child).parent, Some(parent_y));
    assert!(scene.get(parent_y).children.contains(&child));
    assert!(!scene.get(parent_x).children.contains(&child));
}

#[test]
fn readding_to_same_parent_keeps_one_entry() {
    let (mut scene, ids) = new_scene_with(3);
    assert_eq!(scene.add(ids[0], ids[1]), Ok(()));
    assert_eq!(scene.add(ids[0], ids[2]), Ok(()));
    assert_eq!(scene.add(ids[0], ids[1]), Ok(()));
    assert_eq!(scene.get(ids[0]).children, vec![ids[2], ids[1]]);
}

#[test]
fn add_refuses_cycles() {
    let (mut scene, ids) = new_scene_with(3);
    assert_eq!(scene.add(ids[0], ids[1]), Ok(()));
    assert_eq!(scene.add(ids[1], ids[2]), Ok(()));
    // the parent may not be the child itself nor one of its descendants
    assert_eq!(scene.add(ids[0], ids[0]), Err(SceneError::WouldCycle));
    assert_eq!(scene.add(ids[2], ids[0]), Err(SceneError::WouldCycle));
    assert_eq!(scene.add(ids[1], ids[0]), Err(SceneError::WouldCycle));
    // the refused call changed nothing
    assert_eq!(scene.get(ids[0]).parent, None);
    assert_eq!(scene.get(ids[0]).children, vec![ids[1]]);
}

#[test]
fn detach_severs_both_directions() {
    let (mut scene, ids) = new_scene_with(2);
    assert_eq!(scene.add(ids[0], ids[1]), Ok(()));
    scene.detach(ids[1]);
    assert_eq!(scene.get(ids[1]).parent, None);
    assert!(scene.get(ids[0]).children.is_empty());
    // detaching a root is a no-op
    scene.detach(ids[0]);
    assert_eq!(scene.get(ids[0]).parent, None);
}

fn enc3(x: f32, y: f32, z: f32) -> (u32, u32, u32) {
    (x.to_bits(), y.to_bits(), z.to_bits())
}

fn dec16(m: &[u32; 16]) -> [f32; 16] {
    let mut out = [0.0f32; 16];
    for i in 0..16 {
        out[i] = f32::from_bits(m[i]);
    }
    out
}

fn enc16(m: &[f32; 16]) -> [u32; 16] {
    let mut out = [0u32; 16];
    for i in 0..16 {
        out[i] = m[i].to_bits();
    }
    out
}

/// Column-major product `a * b` (element `[4 * col + row]`).
fn mat_mul(a: &[f32; 16], b: &[f32; 16]) -> [f32; 16] {
    let mut out = [0.0f32; 16];
    for col in 0..4 {
        for row in 0..4 {
            let mut sum = 0.0f32;
            for k in 0..4 {
                sum += a[4 * k + row] * b[4 * col + k];
            }
            out[4 * col + row] = sum;
        }
    }
    out
}

/// Compose a local matrix from translation, quaternion and scale, with the
/// rotation derived from the quaternion, each basis column scaled, and the
/// translation in the last column.
fn compose(p: (f32, f32, f32), q: (f32, f32, f32, f32), s: (f32, f32, f32)) -> [f32; 16] {
    let (x, y, z, w) = q;
    let (x2, y2, z2) = (x + x, y + y, z + z);
    let (xx, xy, xz) = (x * x2, x * y2, x * z2);
    let (yy, yz, zz) = (y * y2, y * z2, z * z2);
    let (wx, wy, wz) = (w * x2, w * y2, w * z2);
    let mut m = [
        1.0 - (yy + zz),
        xy + wz,
        xz - wy,
        0.0,
        xy - wz,
        1.0 - (xx + zz),
        yz + wx,
        0.0,
        xz + wy,
        yz - wx,
        1.0 - (xx + yy),
        0.0,
        p.0,
        p.1,
        p.2,
        1.0,
    ];
    for row in 0..3 {
        m[row] *= s.0;
        m[4 + row] *= s.1;
        m[8 + row] *= s.2;
    }
    m
}

/// Execute a world-update schedule with 32-bit float arithmetic: recompose
/// scheduled local matrices, then recombine each world matrix from the
/// parent's world matrix.
fn run_plan(scene: &mut Scene, plan: &[UpdateStep]) {
    for step in plan {
        if step.recompute_local {
            let node = scene.get(step.node);
            let p = node.position;
            let q = node.quaternion;
            let s = node.scale;
            let local = compose(
                (
                    f32::from_bits(p.0),
                    f32::from_bits(p.1),
                    f32::from_bits(p.2),
                ),
                (
                    f32::from_bits(q.0),
                    f32::from_bits(q.1),
                    f32::from_bits(q.2),
                    f32::from_bits(q.3),
                ),
                (
                    f32::from_bits(s.0),
                    f32::from_bits(s.1),
                    f32::from_bits(s.2),
                ),
            );
            scene.store_local_matrix(step.node, enc16(&local));
        }
        let local = dec16(&scene.get(step.node).matrix);
        let world = match step.parent {
            None => local,
            Some(p) => mat_mul(&dec16(&scene.get(p).matrix_world), &local),
        };
        scene.store_world_matrix(step.node, enc16(&world));
    }
}

#[test]
fn chain_translations_accumulate() {
    // root -> a -> b with local translations (1,0,0), (0,1,0), (0,0,1):
    // b's world matrix carries translation (1,1,1)
    let (mut scene, ids) = new_scene_with(3);
    let (root, a, b) = (ids[0], ids[1], ids[2]);
    assert_eq!(scene.add(root, a), Ok(()));
    assert_eq!(scene.add(a, b), Ok(()));
    scene.set_position(root, enc3(1.0, 0.0, 0.0));
    scene.set_position(a, enc3(0.0, 1.0, 0.0));
    scene.set_position(b, enc3(0.0, 0.0, 1.0));
    let plan = scene.update_matrix_world(root, false);
    // a parent is always scheduled before its children
    assert_eq!(plan.len(), 3);
    assert_eq!(plan[0].node, root);
    assert_eq!(plan[1].node, a);
    assert_eq!(plan[2].node, b);
    run_plan(&mut scene, &plan);
    let world_b = dec16(&scene.get(b).matrix_world);
    assert_eq!(world_b[12], 1.0);
    assert_eq!(world_b[13], 1.0);
    assert_eq!(world_b[14], 1.0);
    let world_a = dec16(&scene.get(a).matrix_world);
    assert_eq!((world_a[12], world_a[13], world_a[14]), (1.0, 1.0, 0.0));
}

#[test]
fn update_clears_staleness_and_respects_flags() {
    let (mut scene, ids) = new_scene_with(2);
    let (root, child) = (ids[0], ids[1]);
    assert_eq!(scene.add(root, child), Ok(()));
    let plan = scene.update_matrix_world(root, false);
    assert_eq!(plan.len(), 2);
    assert!(!scene.get(root).matrix_world_needs_update);
    assert!(!scene.get(child).matrix_world_needs_update);
    // with automatic recomposition off and nothing stale, nothing is scheduled
    scene.set_matrix_auto_update(root, false);
    scene.set_matrix_auto_update(child, false);
    let plan = scene.update_matrix_world(root, false);
    assert!(plan.is_empty());
    // marking only the child stale schedules only the child
    scene.set_matrix_world_needs_update(child, true);
    let plan = scene.update_matrix_world(root, false);
    assert_eq!(plan.len(), 1);
    assert_eq!(plan[0].node, child);
    assert_eq!(plan[0].parent, Some(root));
    assert!(!plan[0].recompute_local);
    assert!(!scene.get(child).matrix_world_needs_update);
    // forcing schedules everything even when fresh
    let plan = scene.update_matrix_world(root, true);
    assert_eq!(plan.len(), 2);
}

#[test]
fn update_schedules_whole_subtree_once_parent_is_stale() {
    let (mut scene, ids) = new_scene_with(3);
    let (root, a, b) = (ids[0], ids[1], ids[2]);
    assert_eq!(scene.add(root, a), Ok(()));
    assert_eq!(scene.add(a, b), Ok(()));
    for &i in &ids {
        scene.set_matrix_auto_update(i, false);
    }
    scene.set_matrix_world_needs_update(a, true);
    let plan = scene.update_matrix_world(root, false);
    // a is stale, so a and its whole subtree are scheduled; root is not
    assert_eq!(plan.len(), 2);
    assert_eq!(plan[0].node, a);
    assert_eq!(plan[1].node, b);
}

#[test]
fn detach_keeps_sibling_order() {
    let (mut scene, ids) = new_scene_with(4);
    let (root, a, b, c) = (ids[0], ids[1], ids[2], ids[3]);
    assert_eq!(scene.add(root, a), Ok(()));
    assert_eq!(scene.add(root, b), Ok(()));
    assert_eq!(scene.add(root, c), Ok(()));
    scene.detach(b);
    assert_eq!(scene.get(root).children, vec![a, c]);
    assert_eq!(scene.get(b).parent, None);
}
