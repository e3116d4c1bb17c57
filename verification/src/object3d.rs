//! The scene graph: nodes that own a local transform and are arranged in a
//! parent/child tree, held in an arena (`Scene`) and addressed by index.
//!
//! A node's numeric transform state (position, orientation quaternion, scale,
//! cached local and world matrices) is carried as opaque 32-bit component
//! encodings chosen by the caller; this module owns the structure around it:
//! which node is whose child, the staleness flags, and the schedule on which
//! world matrices must be recombined.  The tree invariant (`Scene::wf`) says
//! that parent and child references agree, that no node is listed under two
//! parents, and that no node is its own transitive ancestor.

use vstd::prelude::*;

use crate::layers::Layers;
use crate::math_static::fresh_object_id;

verus! {

broadcast use vstd::array::group_array_axioms;

/// The conventional 32-bit component encoding of the number one; zero is
/// encoded as zero.  The library never interprets these values, but new
/// nodes start from an identity transform, so its encoding is fixed here.
pub const ENC_ONE: u32 = 0x3F80_0000;

/// Element `i` of the identity encoding of a 4-by-4 matrix, stored
/// column-major: ones on the diagonal (indices 0, 5, 10, 15), zeros
/// elsewhere.
pub open spec fn ident16(i: int) -> u32 {
    if i == 0 || i == 5 || i == 10 || i == 15 {
        ENC_ONE
    } else {
        0u32
    }
}

/// Element `i` of the identity encoding of a 3-by-3 matrix (diagonal at
/// indices 0, 4, 8).
pub open spec fn ident9(i: int) -> u32 {
    if i == 0 || i == 4 || i == 8 {
        ENC_ONE
    } else {
        0u32
    }
}

/// A scene node.  Hierarchy fields (`parent`, `children`) are indices into
/// the owning `Scene`'s arena; a node has at most one parent, and a parent
/// owns the ordered list of its children.
pub struct Object3D {
    /// Process-unique identity, distinct from equality by value.
    pub id: u128,
    /// Display-only name.
    pub name: String,
    /// Index of the owning parent node, if attached.
    pub parent: Option<usize>,
    /// Indices of the owned children, in insertion order.
    pub children: Vec<usize>,
    /// Encoded up vector; defaults to world up (zero, one, zero).
    pub up: (u32, u32, u32),
    /// Encoded local translation.
    pub position: (u32, u32, u32),
    /// Encoded local rotation, as quaternion components x, y, z, w.
    pub quaternion: (u32, u32, u32, u32),
    /// Encoded local scale; defaults to one on each axis.
    pub scale: (u32, u32, u32),
    /// Cached encoded local matrix, column-major.
    pub matrix: [u32; 16],
    /// Cached encoded world matrix: the local matrix pre-multiplied by every
    /// ancestor's, column-major.
    pub matrix_world: [u32; 16],
    /// Renderer-facing cache, written from outside.
    pub model_view_matrix: [u32; 16],
    /// Renderer-facing cache, written from outside.
    pub normal_matrix: [u32; 9],
    /// Whether the local matrix is recomputed from position, quaternion and
    /// scale on every world update.
    pub matrix_auto_update: bool,
    /// Whether the cached world matrix is stale relative to the local matrix
    /// or to the parent's world matrix.
    pub matrix_world_needs_update: bool,
    /// Visibility and selection channels.
    pub layers: Layers,
    pub visible: bool,
    pub cast_shadow: bool,
    pub receive_shadow: bool,
    pub frustum_culled: bool,
    pub render_order: u32,
}

impl Object3D {
    /// A fresh detached node: identity transform, no parent, no children,
    /// default flags, and a newly generated identity value.
    pub fn new() -> (o: Object3D)
        ensures
            o.parent is None,
            o.children@.len() == 0,
            o.name@.len() == 0,
            o.up == ((0u32, ENC_ONE, 0u32)),
            o.position == ((0u32, 0u32, 0u32)),
            o.quaternion == ((0u32, 0u32, 0u32, ENC_ONE)),
            o.scale == ((ENC_ONE, ENC_ONE, ENC_ONE)),
            forall|i: int| 0 <= i < 16 ==> o.matrix@[i] == ident16(i),
            forall|i: int| 0 <= i < 16 ==> o.matrix_world@[i] == ident16(i),
            forall|i: int| 0 <= i < 16 ==> o.model_view_matrix@[i] == ident16(i),
            forall|i: int| 0 <= i < 9 ==> o.normal_matrix@[i] == ident9(i),
            o.matrix_auto_update,
            !o.matrix_world_needs_update,
            o.layers@ == 1u64,
            o.visible,
            !o.cast_shadow,
            !o.receive_shadow,
            o.frustum_culled,
            o.render_order == 0,
            (o.id >> 76) & 0xf == 4,
            (o.id >> 62) & 0x3 == 2,
    {
        let m4: [u32; 16] = [
            ENC_ONE,
            0,
            0,
            0,
            0,
            ENC_ONE,
            0,
            0,
            0,
            0,
            ENC_ONE,
            0,
            0,
            0,
            0,
            ENC_ONE,
        ];
        let m3: [u32; 9] = [ENC_ONE, 0, 0, 0, ENC_ONE, 0, 0, 0, ENC_ONE];
        Object3D {
            id: fresh_object_id(),
            name: String::new(),
            parent: None,
            children: Vec::new(),
            up: (0, ENC_ONE, 0),
            position: (0, 0, 0),
            quaternion: (0, 0, 0, ENC_ONE),
            scale: (ENC_ONE, ENC_ONE, ENC_ONE),
            matrix: m4,
            matrix_world: m4,
            model_view_matrix: m4,
            normal_matrix: m3,
            matrix_auto_update: true,
            matrix_world_needs_update: false,
            layers: Layers::new(),
            visible: true,
            cast_shadow: false,
            receive_shadow: false,
            frustum_culled: true,
            render_order: 0,
        }
    }
}

/// The arena that owns every node of one scene graph.
pub struct Scene {
    pub nodes: Vec<Object3D>,
}

impl Scene {
    /// Number of nodes in the arena.
    pub open spec fn len(self) -> int {
        self.nodes@.len() as int
    }

    /// The parent link of node `i`.
    pub open spec fn parent_of(self, i: int) -> Option<usize> {
        self.nodes@[i].parent
    }

    /// The parent chain starting at `i` reaches a parentless root within
    /// `fuel` steps.
    pub open spec fn up_ok(self, i: int, fuel: nat) -> bool
        decreases fuel,
    {
        &&& 0 <= i < self.len()
        &&& fuel > 0
        &&& match self.nodes@[i].parent {
            None => true,
            Some(p) => self.up_ok(p as int, (fuel - 1) as nat),
        }
    }

    /// Node `t` occurs on the parent chain starting at `i` (including `i`
    /// itself) within `fuel` steps.
    pub open spec fn up_hits(self, i: int, t: int, fuel: nat) -> bool
        decreases fuel,
    {
        &&& 0 <= i < self.len()
        &&& fuel > 0
        &&& (i == t || match self.nodes@[i].parent {
            None => false,
            Some(p) => self.up_hits(p as int, t, (fuel - 1) as nat),
        })
    }

    /// There is no cycle above `i`: its parent chain ends at a root.
    pub open spec fn rooted(self, i: int) -> bool {
        exists|f: nat| self.up_ok(i, f)
    }

    /// `t` is `i` itself or one of its transitive ancestors.
    pub open spec fn reaches_up(self, i: int, t: int) -> bool {
        exists|f: nat| self.up_hits(i, t, f)
    }

    /// Local consistency of node `i`: its parent (if any) lists it as a
    /// child, every child it lists points back to it, and no child is listed
    /// twice.
    pub open spec fn node_ok(self, i: int) -> bool {
        let n = self.nodes@[i];
        &&& match n.parent {
            None => true,
            Some(p) => p < self.len() && self.nodes@[p as int].children@.contains(i as usize),
        }
        &&& forall|k: int|
            0 <= k < n.children@.len() ==> #[trigger] n.children@[k] < self.nodes@.len()
                && self.nodes@[n.children@[k] as int].parent == Some(i as usize)
        &&& n.children@.no_duplicates()
    }

    /// The scene-graph invariant: every node is locally consistent and no
    /// node is its own transitive ancestor.
    pub open spec fn wf(self) -> bool {
        &&& forall|i: int| 0 <= i < self.len() ==> #[trigger] self.node_ok(i)
        &&& forall|i: int| 0 <= i < self.len() ==> #[trigger] self.rooted(i)
    }

    /// An empty scene.
    pub fn new() -> (s: Scene)
        ensures
            s.wf(),
            s.nodes@.len() == 0,
    {
        Scene { nodes: Vec::new() }
    }

    /// Move a fresh, detached node into the arena; its index is returned and
    /// stays valid for the life of the scene.
    pub fn add_object(&mut self, obj: Object3D) -> (idx: usize)
        requires
            old(self).wf(),
            obj.parent is None,
            obj.children@.len() == 0,
        ensures
            final(self).wf(),
            idx == old(self).nodes@.len(),
            final(self).nodes@ == old(self).nodes@.push(obj),
    {
        let idx = self.nodes.len();
        self.nodes.push(obj);
        proof {
            let s0 = *old(self);
            let s1 = *self;
            assert forall|i: int| 0 <= i < s1.len() implies #[trigger] s1.node_ok(i) by {
                if i < s0.len() {
                    assert(s0.node_ok(i));
                    assert(s1.nodes@[i] == s0.nodes@[i]);
                    let n = s1.nodes@[i];
                    assert forall|k: int|
                        0 <= k < n.children@.len() implies #[trigger] n.children@[k]
                        < s1.nodes@.len() && s1.nodes@[n.children@[k] as int].parent == Some(
                        i as usize,
                    ) by {
                        assert(n.children@[k] < s0.nodes@.len());
                        assert(s1.nodes@[n.children@[k] as int] == s0.nodes@[n.children@[k] as int]);
                    }
                } else {
                    assert(s1.nodes@[i] == obj);
                }
            }
            assert forall|i: int| 0 <= i < s1.len() implies #[trigger] s1.rooted(i) by {
                if i < s0.len() {
                    assert(s0.rooted(i));
                    let f = choose|f: nat| s0.up_ok(i, f);
                    lemma_up_ok_push(s0, s1, i, f);
                    assert(s1.up_ok(i, f));
                } else {
                    assert(s1.up_ok(i, 1));
                }
            }
        }
        idx
    }

    /// Read node `i`.
    pub fn get(&self, i: usize) -> (n: &Object3D)
        requires
            i < self.nodes@.len(),
        ensures
            *n == self.nodes@[i as int],
    {
        &self.nodes[i]
    }

    /// Replace the encoded local translation of node `i`.
    pub fn set_position(&mut self, i: usize, position: (u32, u32, u32))
        requires
            old(self).wf(),
            i < old(self).nodes@.len(),
        ensures
            final(self).wf(),
            final(self).nodes@ == old(self).nodes@.update(
                i as int,
                (Object3D { position, ..old(self).nodes@[i as int] }),
            ),
    {
        self.nodes[i].position = position;
        proof {
            lemma_wf_same_hierarchy(*old(self), *self);
        }
    }

    /// Replace the encoded local rotation quaternion of node `i`.
    pub fn set_quaternion(&mut self, i: usize, quaternion: (u32, u32, u32, u32))
        requires
            old(self).wf(),
            i < old(self).nodes@.len(),
        ensures
            final(self).wf(),
            final(self).nodes@ == old(self).nodes@.update(
                i as int,
                (Object3D { quaternion, ..old(self).nodes@[i as int] }),
            ),
    {
        self.nodes[i].quaternion = quaternion;
        proof {
            lemma_wf_same_hierarchy(*old(self), *self);
        }
    }

    /// Replace the encoded local scale of node `i`.
    pub fn set_scale(&mut self, i: usize, scale: (u32, u32, u32))
        requires
            old(self).wf(),
            i < old(self).nodes@.len(),
        ensures
            final(self).wf(),
            final(self).nodes@ == old(self).nodes@.update(
                i as int,
                (Object3D { scale, ..old(self).nodes@[i as int] }),
            ),
    {
        self.nodes[i].scale = scale;
        proof {
            lemma_wf_same_hierarchy(*old(self), *self);
        }
    }

    /// Replace the encoded up vector of node `i`.
    pub fn set_up(&mut self, i: usize, up: (u32, u32, u32))
        requires
            old(self).wf(),
            i < old(self).nodes@.len(),
        ensures
            final(self).wf(),
            final(self).nodes@ == old(self).nodes@.update(
                i as int,
                (Object3D { up, ..old(self).nodes@[i as int] }),
            ),
    {
        self.nodes[i].up = up;
        proof {
            lemma_wf_same_hierarchy(*old(self), *self);
        }
    }

    /// Store a recomposed encoded local matrix for node `i`.
    pub fn store_local_matrix(&mut self, i: usize, matrix: [u32; 16])
        requires
            old(self).wf(),
            i < old(self).nodes@.len(),
        ensures
            final(self).wf(),
            final(self).nodes@ == old(self).nodes@.update(
                i as int,
                (Object3D { matrix, ..old(self).nodes@[i as int] }),
            ),
    {
        self.nodes[i].matrix = matrix;
        proof {
            lemma_wf_same_hierarchy(*old(self), *self);
        }
    }

    /// Store a recombined encoded world matrix for node `i`.
    pub fn store_world_matrix(&mut self, i: usize, matrix_world: [u32; 16])
        requires
            old(self).wf(),
            i < old(self).nodes@.len(),
        ensures
            final(self).wf(),
            final(self).nodes@ == old(self).nodes@.update(
                i as int,
                (Object3D { matrix_world, ..old(self).nodes@[i as int] }),
            ),
    {
        self.nodes[i].matrix_world = matrix_world;
        proof {
            lemma_wf_same_hierarchy(*old(self), *self);
        }
    }

    /// Store the renderer-facing model-view matrix cache for node `i`.
    pub fn store_model_view_matrix(&mut self, i: usize, model_view_matrix: [u32; 16])
        requires
            old(self).wf(),
            i < old(self).nodes@.len(),
        ensures
            final(self).wf(),
            final(self).nodes@ == old(self).nodes@.update(
                i as int,
                (Object3D { model_view_matrix, ..old(self).nodes@[i as int] }),
            ),
    {
        self.nodes[i].model_view_matrix = model_view_matrix;
        proof {
            lemma_wf_same_hierarchy(*old(self), *self);
        }
    }

    /// Store the renderer-facing normal matrix cache for node `i`.
    pub fn store_normal_matrix(&mut self, i: usize, normal_matrix: [u32; 9])
        requires
            old(self).wf(),
            i < old(self).nodes@.len(),
        ensures
            final(self).wf(),
            final(self).nodes@ == old(self).nodes@.update(
                i as int,
                (Object3D { normal_matrix, ..old(self).nodes@[i as int] }),
            ),
    {
        self.nodes[i].normal_matrix = normal_matrix;
        proof {
            lemma_wf_same_hierarchy(*old(self), *self);
        }
    }

    /// Set whether node `i`'s local matrix is recomposed on every update.
    pub fn set_matrix_auto_update(&mut self, i: usize, matrix_auto_update: bool)
        requires
            old(self).wf(),
            i < old(self).nodes@.len(),
        ensures
            final(self).wf(),
            final(self).nodes@ == old(self).nodes@.update(
                i as int,
                (Object3D { matrix_auto_update, ..old(self).nodes@[i as int] }),
            ),
    {
        self.nodes[i].matrix_auto_update = matrix_auto_update;
        proof {
            lemma_wf_same_hierarchy(*old(self), *self);
        }
    }

    /// Mark node `i`'s world matrix stale (or fresh).
    pub fn set_matrix_world_needs_update(&mut self, i: usize, matrix_world_needs_update: bool)
        requires
            old(self).wf(),
            i < old(self).nodes@.len(),
        ensures
            final(self).wf(),
            final(self).nodes@ == old(self).nodes@.update(
                i as int,
                (Object3D { matrix_world_needs_update, ..old(self).nodes@[i as int] }),
            ),
    {
        self.nodes[i].matrix_world_needs_update = matrix_world_needs_update;
        proof {
            lemma_wf_same_hierarchy(*old(self), *self);
        }
    }

    /// Replace the display name of node `i`.
    pub fn set_name(&mut self, i: usize, name: String)
        requires
            old(self).wf(),
            i < old(self).nodes@.len(),
        ensures
            final(self).wf(),
            final(self).nodes@ == old(self).nodes@.update(
                i as int,
                (Object3D { name, ..old(self).nodes@[i as int] }),
            ),
    {
        self.nodes[i].name = name;
        proof {
            lemma_wf_same_hierarchy(*old(self), *self);
        }
    }

    /// Replace the visibility and selection channels of node `i`.
    pub fn set_layers(&mut self, i: usize, layers: Layers)
        requires
            old(self).wf(),
            i < old(self).nodes@.len(),
        ensures
            final(self).wf(),
            final(self).nodes@ == old(self).nodes@.update(
                i as int,
                (Object3D { layers, ..old(self).nodes@[i as int] }),
            ),
    {
        self.nodes[i].layers = layers;
        proof {
            lemma_wf_same_hierarchy(*old(self), *self);
        }
    }

    /// Set the visibility flag of node `i`.
    pub fn set_visible(&mut self, i: usize, visible: bool)
        requires
            old(self).wf(),
            i < old(self).nodes@.len(),
        ensures
            final(self).wf(),
            final(self).nodes@ == old(self).nodes@.update(
                i as int,
                (Object3D { visible, ..old(self).nodes@[i as int] }),
            ),
    {
        self.nodes[i].visible = visible;
        proof {
            lemma_wf_same_hierarchy(*old(self), *self);
        }
    }

    /// Set the shadow-casting flag of node `i`.
    pub fn set_cast_shadow(&mut self, i: usize, cast_shadow: bool)
        requires
            old(self).wf(),
            i < old(self).nodes@.len(),
        ensures
            final(self).wf(),
            final(self).nodes@ == old(self).nodes@.update(
                i as int,
                (Object3D { cast_shadow, ..old(self).nodes@[i as int] }),
            ),
    {
        self.nodes[i].cast_shadow = cast_shadow;
        proof {
            lemma_wf_same_hierarchy(*old(self), *self);
        }
    }

    /// Set the shadow-receiving flag of node `i`.
    pub fn set_receive_shadow(&mut self, i: usize, receive_shadow: bool)
        requires
            old(self).wf(),
            i < old(self).nodes@.len(),
        ensures
            final(self).wf(),
            final(self).nodes@ == old(self).nodes@.update(
                i as int,
                (Object3D { receive_shadow, ..old(self).nodes@[i as int] }),
            ),
    {
        self.nodes[i].receive_shadow = receive_shadow;
        proof {
            lemma_wf_same_hierarchy(*old(self), *self);
        }
    }

    /// Set the frustum-culling flag of node `i`.
    pub fn set_frustum_culled(&mut self, i: usize, frustum_culled: bool)
        requires
            old(self).wf(),
            i < old(self).nodes@.len(),
        ensures
            final(self).wf(),
            final(self).nodes@ == old(self).nodes@.update(
                i as int,
                (Object3D { frustum_culled, ..old(self).nodes@[i as int] }),
            ),
    {
        self.nodes[i].frustum_culled = frustum_culled;
        proof {
            lemma_wf_same_hierarchy(*old(self), *self);
        }
    }

    /// Set the draw-ordering hint of node `i`.
    pub fn set_render_order(&mut self, i: usize, render_order: u32)
        requires
            old(self).wf(),
            i < old(self).nodes@.len(),
        ensures
            final(self).wf(),
            final(self).nodes@ == old(self).nodes@.update(
                i as int,
                (Object3D { render_order, ..old(self).nodes@[i as int] }),
            ),
    {
        self.nodes[i].render_order = render_order;
        proof {
            lemma_wf_same_hierarchy(*old(self), *self);
        }
    }

    /// Remove `child` from its current parent, if it has one.  This severs
    /// the ownership edge in both directions: the parent no longer lists the
    /// child, and the child's back-reference is cleared.  Nothing else about
    /// the scene changes.
    pub fn detach(&mut self, child: usize)
        requires
            old(self).wf(),
            child < old(self).nodes@.len(),
        ensures
            final(self).wf(),
            final(self).nodes@.len() == old(self).nodes@.len(),
            final(self).nodes@[child as int].parent is None,
            match old(self).nodes@[child as int].parent {
                None => final(self).nodes@ == old(self).nodes@,
                Some(p) => {
                    &&& final(self).nodes@[child as int] == (Object3D {
                        parent: None,
                        ..old(self).nodes@[child as int]
                    })
                    &&& (Object3D {
                        children: old(self).nodes@[p as int].children,
                        ..final(self).nodes@[p as int]
                    }) == old(self).nodes@[p as int]
                    &&& final(self).nodes@[p as int].children@ == old(self).nodes@[p as int].children@.remove_value(child)
                    &&& forall|i: int|
                        0 <= i < old(self).nodes@.len() && i != child && i != p
                            ==> final(self).nodes@[i] == old(self).nodes@[i]
                },
            },
    {
        // bind the arena length to a machine integer, so that casts between
        // indices as `int` and as `usize` stay in range below
        let n_total = self.nodes.len();
        proof {
            assert(self.nodes@.len() == n_total);
        }
        let po = self.nodes[child].parent;
        match po {
            None => {},
            Some(p) => {
                proof {
                    let s0 = *old(self);
                    assert(s0.node_ok(child as int));
                    assert(s0.rooted(child as int));
                    let f = choose|f: nat| s0.up_ok(child as int, f);
                    lemma_no_self_parent(s0, child, f);
                    assert(p != child);
                }
                let j = find_index(&self.nodes[p].children, child);
                self.nodes[p].children.remove(j);
                self.nodes[child].parent = None;
                proof {
                    let s0 = *old(self);
                    let s1 = *self;
                    let oldc = s0.nodes@[p as int].children@;
                    let newc = s1.nodes@[p as int].children@;
                    assert(newc == oldc.remove(j as int));
                    oldc.remove_ensures(j as int);
                    // `j` is the first (and only) occurrence, so removing by
                    // index is removing the value.
                    oldc.index_of_first_ensures(child);
                    assert(s0.node_ok(p as int));
                    assert(oldc.no_duplicates());
                    assert(oldc.index_of_first(child) == Some(j as int));
                    assert(newc == oldc.remove_value(child));
                    // Well-formedness of the detached scene.
                    assert forall|i: int| 0 <= i < s1.len() implies #[trigger] s1.node_ok(i) by {
                        assert(s0.node_ok(i));
                        let n1 = s1.nodes@[i];
                        let n0 = s0.nodes@[i];
                        assert forall|k: int|
                            0 <= k < n1.children@.len() implies #[trigger] n1.children@[k]
                            < s1.nodes@.len() && s1.nodes@[n1.children@[k] as int].parent == Some(
                            i as usize,
                        ) by {
                            let c1 = n1.children@[k];
                            if i == p as int {
                                // the surviving children were already there
                                if k < j {
                                    assert(c1 == oldc[k]);
                                } else {
                                    assert(c1 == oldc[k + 1]);
                                }
                                assert(oldc.contains(c1)) by {
                                    if k < j {
                                        assert(oldc[k] == c1);
                                    } else {
                                        assert(oldc[k + 1] == c1);
                                    }
                                }
                                let kk = choose|kk: int|
                                    0 <= kk < oldc.len() && oldc[kk] == c1;
                                assert(s0.nodes@[c1 as int].parent == Some(p));
                                // the removed entry was the only one for `child`
                                assert(c1 != child) by {
                                    if c1 == child {
                                        if k < j {
                                            assert(oldc[k] == oldc[j as int]);
                                        } else {
                                            assert(oldc[k + 1] == oldc[j as int]);
                                        }
                                    }
                                }
                                assert(s1.nodes@[c1 as int].parent == Some(p));
                            } else {
                                assert(n1.children@ == n0.children@);
                                assert(s0.nodes@[c1 as int].parent == Some(i as usize));
                                // `child` is listed only under `p`, so this
                                // child's parent link is untouched
                                assert(c1 != child) by {
                                    if c1 == child {
                                        assert(s0.nodes@[child as int].parent == Some(
                                            i as usize,
                                        ));
                                    }
                                }
                            }
                        }
                        if i == p as int {
                            assert(newc.no_duplicates()) by {
                                assert forall|k1: int, k2: int|
                                    0 <= k1 < newc.len() && 0 <= k2 < newc.len() && k1 != k2
                                    implies newc[k1] != newc[k2] by {
                                    let a1: int = if k1 < j {
                                        k1
                                    } else {
                                        k1 + 1
                                    };
                                    let a2: int = if k2 < j {
                                        k2
                                    } else {
                                        k2 + 1
                                    };
                                    assert(newc[k1] == oldc[a1] && newc[k2] == oldc[a2]);
                                }
                            }
                        }
                        match n1.parent {
                            None => {},
                            Some(q) => {
                                assert(n0.parent == Some(q));
                                assert(s0.nodes@[q as int].children@.contains(i as usize));
                                if q == p {
                                    assert(i != child as int);
                                    let kk = choose|kk: int|
                                        0 <= kk < oldc.len() && oldc[kk] == i as usize;
                                    if kk < j {
                                        assert(newc[kk] == oldc[kk]);
                                        assert(newc.contains(i as usize));
                                    } else if kk == j {
                                        assert(false);
                                    } else {
                                        assert(newc[kk - 1] == oldc[kk]);
                                        assert(newc.contains(i as usize));
                                    }
                                } else {
                                    assert(s1.nodes@[q as int].children@ == s0.nodes@[
                                        q as int].children@);
                                }
                            },
                        }
                    }
                    assert forall|i: int| 0 <= i < s1.len() implies #[trigger] s1.rooted(i) by {
                        assert(s0.rooted(i));
                        let f = choose|f: nat| s0.up_ok(i, f);
                        lemma_up_ok_unparent(s0, s1, child as int, i, f);
                        assert(s1.up_ok(i, f));
                    }
                }
            },
        }
    }

    /// Whether `target` is `start` itself or one of its transitive
    /// ancestors, decided by walking the parent chain upward.
    fn ancestor_check(&self, start: usize, target: usize) -> (hits: bool)
        requires
            self.wf(),
            start < self.nodes@.len(),
        ensures
            hits == self.reaches_up(start as int, target as int),
    {
        proof {
            assert(self.rooted(start as int));
        }
        let ghost f0 = choose|f: nat| self.up_ok(start as int, f);
        let mut cur: usize = start;
        let ghost mut g: nat = f0;
        let ghost mut steps: nat = 0;
        loop
            invariant
                self.wf(),
                cur < self.nodes@.len(),
                self.up_ok(cur as int, g),
                forall|h: nat|
                    #[trigger] self.up_hits(cur as int, target as int, h) ==> self.up_hits(
                        start as int,
                        target as int,
                        (h + steps) as nat,
                    ),
                forall|h: nat|
                    #[trigger] self.up_hits(start as int, target as int, h) ==> self.up_hits(
                        cur as int,
                        target as int,
                        h,
                    ),
            decreases g,
        {
            if cur == target {
                proof {
                    assert(self.up_hits(cur as int, target as int, 1nat));
                    assert(self.up_hits(start as int, target as int, (1 + steps) as nat));
                }
                return true;
            }
            match self.nodes[cur].parent {
                None => {
                    proof {
                        assert forall|h: nat| !self.up_hits(start as int, target as int, h) by {
                            if self.up_hits(start as int, target as int, h) {
                                assert(self.up_hits(cur as int, target as int, h));
                            }
                        }
                    }
                    return false;
                },
                Some(p) => {
                    proof {
                        assert(self.up_ok(p as int, (g - 1) as nat));
                        let oldcur = cur;
                        let oldsteps = steps;
                        assert forall|h: nat|
                            #[trigger] self.up_hits(p as int, target as int, h) implies self.up_hits(
                            start as int,
                            target as int,
                            (h + oldsteps + 1) as nat,
                        ) by {
                            assert(self.up_hits(oldcur as int, target as int, (h + 1) as nat));
                        }
                        assert forall|h: nat|
                            #[trigger] self.up_hits(start as int, target as int, h) implies self.up_hits(
                            p as int,
                            target as int,
                            h,
                        ) by {
                            assert(self.up_hits(oldcur as int, target as int, h));
                            assert(self.up_hits(p as int, target as int, (h - 1) as nat));
                            lemma_up_hits_mono(*self, p as int, target as int, (h - 1) as nat, h);
                        }
                        g = (g - 1) as nat;
                        steps = (steps + 1) as nat;
                    }
                    cur = p;
                },
            }
        }
    }

    /// Attach `child` under `parent`, detaching it first from any previous
    /// parent, so that a node is owned by one parent at a time.  The
    /// attachment is refused, and the scene left untouched, exactly when
    /// `parent` is `child` itself or one of `child`'s descendants, since the
    /// tree must stay free of ancestor cycles.
    pub fn add(&mut self, parent: usize, child: usize) -> (r: Result<(), SceneError>)
        requires
            old(self).wf(),
            parent < old(self).nodes@.len(),
            child < old(self).nodes@.len(),
        ensures
            final(self).wf(),
            final(self).nodes@.len() == old(self).nodes@.len(),
            r is Err <==> old(self).reaches_up(parent as int, child as int),
            r is Err ==> *final(self) == *old(self) && r == Err::<(), SceneError>(
                SceneError::WouldCycle,
            ),
            r is Ok ==> {
                &&& final(self).nodes@[child as int].parent == Some(parent)
                &&& final(self).nodes@[parent as int].children@.last() == child
                &&& final(self).nodes@[parent as int].children@.contains(child)
                &&& forall|q: int|
                    0 <= q < final(self).nodes@.len() && q != parent ==> !final(self).nodes@[q].children@.contains(child)
                &&& final(self).nodes@[child as int] == (Object3D {
                    parent: Some(parent),
                    ..old(self).nodes@[child as int]
                })
                &&& (Object3D {
                    children: old(self).nodes@[parent as int].children,
                    ..final(self).nodes@[parent as int]
                }) == old(self).nodes@[parent as int]
                &&& match old(self).nodes@[child as int].parent {
                    None => {
                        &&& final(self).nodes@[parent as int].children@ == old(self).nodes@[parent as int].children@.push(child)
                        &&& forall|i: int|
                            0 <= i < old(self).nodes@.len() && i != child && i != parent
                                ==> final(self).nodes@[i] == old(self).nodes@[i]
                    },
                    Some(q) => {
                        &&& q == parent ==> final(self).nodes@[parent as int].children@ == old(self).nodes@[parent as int].children@.remove_value(child).push(child)
                        &&& q != parent ==> {
                            &&& final(self).nodes@[parent as int].children@ == old(self).nodes@[parent as int].children@.push(child)
                            &&& final(self).nodes@[q as int].children@ == old(self).nodes@[q as int].children@.remove_value(child)
                            &&& (Object3D {
                                children: old(self).nodes@[q as int].children,
                                ..final(self).nodes@[q as int]
                            }) == old(self).nodes@[q as int]
                        }
                        &&& forall|i: int|
                            0 <= i < old(self).nodes@.len() && i != child && i != parent && i
                                != q ==> final(self).nodes@[i] == old(self).nodes@[i]
                    },
                }
            },
    {
        if self.ancestor_check(parent, child) {
            return Err(SceneError::WouldCycle);
        }
        let ghost s0 = *self;
        self.detach(child);
        let ghost s1 = *self;
        proof {
            // the walk found no path from `parent` to `child`, and detaching
            // `child` cannot create one
            assert forall|f: nat| !s1.up_hits(parent as int, child as int, f) by {
                assert forall|h: nat| !s0.up_hits(parent as int, child as int, h) by {
                    if s0.up_hits(parent as int, child as int, h) {
                        assert(s0.reaches_up(parent as int, child as int));
                    }
                }
                lemma_up_hits_avoid_all(s0, s1, child as int, parent as int, f);
            }
        }
        // bind the arena length to a machine integer, so that casts between
        // indices as `int` and as `usize` stay in range below
        let n_total = self.nodes.len();
        proof {
            assert(self.nodes@.len() == n_total);
        }
        self.nodes[child].parent = Some(parent);
        self.nodes[parent].children.push(child);
        proof {
            let s3 = *self;
            assert(s3.nodes@[parent as int].children@ == s1.nodes@[parent as int].children@.push(
                child,
            ));
            // `child` was detached, so it was listed nowhere
            assert forall|q: int|
                0 <= q < s1.len() && s1.nodes@[q].children@.contains(child) implies false by {
                assert(s1.node_ok(q));
                let kk = choose|kk: int|
                    0 <= kk < s1.nodes@[q].children@.len() && s1.nodes@[q].children@[kk] == child;
                assert(s1.nodes@[child as int].parent == Some(q as usize));
            }
            // local consistency of every node in the new scene
            assert forall|i: int| 0 <= i < s3.len() implies #[trigger] s3.node_ok(i) by {
                assert(s1.node_ok(i));
                let n3 = s3.nodes@[i];
                let n1 = s1.nodes@[i];
                assert forall|k: int|
                    0 <= k < n3.children@.len() implies #[trigger] n3.children@[k]
                    < s3.nodes@.len() && s3.nodes@[n3.children@[k] as int].parent == Some(
                    i as usize,
                ) by {
                    let c3 = n3.children@[k];
                    if i == parent as int && k == n3.children@.len() - 1 {
                        assert(c3 == child);
                        assert(s3.nodes@[child as int].parent == Some(parent));
                    } else {
                        assert(c3 == n1.children@[k]);
                        assert(n1.children@[k] < s1.nodes@.len() && s1.nodes@[n1.children@[k] as int].parent
                            == Some(i as usize));
                        assert(c3 != child);
                        assert(s3.nodes@[c3 as int].parent == s1.nodes@[c3 as int].parent);
                    }
                }
                if i == parent as int {
                    assert(n3.children@.no_duplicates()) by {
                        let oldc = n1.children@;
                        assert(!oldc.contains(child));
                        assert forall|k1: int, k2: int|
                            0 <= k1 < n3.children@.len() && 0 <= k2 < n3.children@.len() && k1
                                != k2 implies n3.children@[k1] != n3.children@[k2] by {
                            if k1 < oldc.len() && k2 < oldc.len() {
                            } else if k1 < oldc.len() {
                                assert(n3.children@[k2] == child);
                                if n3.children@[k1] == child {
                                    assert(oldc[k1] == child);
                                }
                            } else {
                                assert(n3.children@[k1] == child);
                                if n3.children@[k2] == child {
                                    assert(oldc[k2] == child);
                                }
                            }
                        }
                    }
                }
                match n3.parent {
                    None => {},
                    Some(q) => {
                        if i == child as int {
                            assert(q == parent);
                            assert(s3.nodes@[parent as int].children@.last() == child);
                        } else {
                            assert(n1.parent == Some(q));
                            assert(s1.nodes@[q as int].children@.contains(i as usize));
                            if q == parent {
                                let kk = choose|kk: int|
                                    0 <= kk < s1.nodes@[q as int].children@.len()
                                        && s1.nodes@[q as int].children@[kk] == i as usize;
                                assert(s3.nodes@[q as int].children@[kk] == i as usize);
                            } else {
                                assert(s3.nodes@[q as int].children@ == s1.nodes@[
                                    q as int].children@);
                            }
                        }
                    },
                }
            }
            // every node still reaches a root
            assert forall|i: int| 0 <= i < s3.len() implies #[trigger] s3.rooted(i) by {
                assert(s1.rooted(i));
                assert(s1.rooted(parent as int));
                let fi = choose|f: nat| s1.up_ok(i, f);
                let fp = choose|f: nat| s1.up_ok(parent as int, f);
                lemma_up_ok_avoid(s1, s3, child as int, parent as int, fp);
                assert(s3.up_ok(parent as int, fp));
                assert(s3.up_ok(child as int, (fp + 1) as nat));
                if s1.up_hits(i, child as int, fi) {
                    lemma_up_ok_reroute(s1, s3, child as int, i, fi, (fp + 1) as nat);
                    assert(s3.up_ok(i, (fi + (fp + 1)) as nat));
                } else {
                    lemma_up_ok_avoid(s1, s3, child as int, i, fi);
                    assert(s3.up_ok(i, fi));
                }
            }
            // nothing else changed
            assert forall|i: int|
                0 <= i < s1.len() && i != child && i != parent implies s3.nodes@[i]
                == s1.nodes@[i] by {}
            assert(!s0.reaches_up(parent as int, child as int));
            assert(parent != child) by {
                if parent == child {
                    assert(s0.up_hits(parent as int, child as int, 1nat));
                }
            }
            assert(s3.nodes@[child as int].parent == Some(parent));
            assert(s3.nodes@[parent as int].children@.last() == child);
            assert(s3.nodes@[parent as int].children@.contains(child)) by {
                let cc = s3.nodes@[parent as int].children@;
                assert(cc[cc.len() - 1] == child);
            }
            assert forall|q: int|
                0 <= q < s3.nodes@.len() && q != parent implies !s3.nodes@[q].children@.contains(
                child,
            ) by {
                assert(s3.nodes@[q].children@ == s1.nodes@[q].children@);
            }
            assert(s3.nodes@[child as int] == (Object3D {
                parent: Some(parent),
                ..s0.nodes@[child as int]
            }));
            assert((Object3D {
                children: s0.nodes@[parent as int].children,
                ..s3.nodes@[parent as int]
            }) == s0.nodes@[parent as int]);
            match s0.nodes@[child as int].parent {
                None => {
                    assert(s3.nodes@[parent as int].children@ == s0.nodes@[
                        parent as int].children@.push(child));
                    assert forall|i: int|
                        0 <= i < s0.nodes@.len() && i != child && i != parent implies s3.nodes@[i]
                        == s0.nodes@[i] by {}
                },
                Some(q) => {
                    assert(s0.node_ok(child as int));
                    assert(q < s0.nodes@.len());
                    assert(q != child) by {
                        assert(s0.rooted(child as int));
                        let f = choose|f: nat| s0.up_ok(child as int, f);
                        lemma_no_self_parent(s0, child, f);
                    }
                    if q == parent {
                        assert(s3.nodes@[parent as int].children@ == s0.nodes@[
                            parent as int].children@.remove_value(child).push(child));
                    } else {
                        assert(s3.nodes@[parent as int].children@ == s0.nodes@[
                            parent as int].children@.push(child));
                        assert(s3.nodes@[q as int].children@ == s0.nodes@[
                            q as int].children@.remove_value(child));
                        assert((Object3D {
                            children: s0.nodes@[q as int].children,
                            ..s3.nodes@[q as int]
                        }) == s0.nodes@[q as int]);
                    }
                    assert forall|i: int|
                        0 <= i < s0.nodes@.len() && i != child && i != parent && i != q
                        implies s3.nodes@[i] == s0.nodes@[i] by {}
                },
            }
        }
        Ok(())
    }
}

/// Why `Scene::add` can refuse to attach a node.
#[derive(Clone, Copy, Debug, PartialEq, Eq, Structural)]
pub enum SceneError {
    /// The requested parent is the child itself or one of the child's
    /// descendants; attaching would create a cycle of ancestor links.
    WouldCycle,
}

/// Find the position of `x` in `v`, given that it occurs.
fn find_index(v: &Vec<usize>, x: usize) -> (j: usize)
    requires
        v@.contains(x),
    ensures
        j < v@.len(),
        v@[j as int] == x,
        forall|k: int| 0 <= k < j ==> v@[k] != x,
{
    let n = v.len();
    let mut j: usize = 0;
    loop
        invariant
            n == v@.len(),
            j <= n,
            v@.contains(x),
            forall|k: int| 0 <= k < j ==> v@[k] != x,
        decreases v@.len() - j,
    {
        proof {
            if j == v@.len() {
                let w = choose|w: int| 0 <= w < v@.len() && v@[w] == x;
                assert(false);
            }
        }
        if v[j] == x {
            return j;
        }
        j = j + 1;
    }
}

/// One entry of a world-update schedule: the executor recombines node
/// `node`'s world matrix from its parent's world matrix (none for a root)
/// and its local matrix, first recomposing the local matrix from position,
/// quaternion and scale when `recompute_local` is set.
#[derive(Clone, Copy, Debug, PartialEq, Eq, Structural)]
pub struct UpdateStep {
    pub node: usize,
    pub parent: Option<usize>,
    pub recompute_local: bool,
}

impl Scene {
    /// The staleness flag of every node, as a map from index to flag.
    pub open spec fn needs_map(self) -> Map<int, bool> {
        Map::new(
            |i: int| 0 <= i < self.nodes@.len(),
            |i: int| self.nodes@[i].matrix_world_needs_update,
        )
    }
}

impl Scene {
    /// Walk the subtree under `i`, recording the schedule and clearing the
    /// staleness flags of the scheduled nodes.
    fn update_walk(
        &mut self,
        i: usize,
        force: bool,
        fuel: usize,
        plan: &mut Vec<UpdateStep>,
        Ghost(orig): Ghost<Scene>,
    )
        requires
            old(self).wf(),
            same_structure(orig, *old(self)),
            i < old(self).nodes@.len(),
        ensures
            final(self).wf(),
            same_structure(orig, *final(self)),
            final(self).nodes@.len() == old(self).nodes@.len(),
            forall|j: int|
                0 <= j < old(self).nodes@.len() ==> #[trigger] final(self).nodes@[j] == (Object3D {
                    matrix_world_needs_update: final(self).nodes@[j].matrix_world_needs_update,
                    ..old(self).nodes@[j]
                }),
            final(self).needs_map() == walk_node(
                orig,
                old(self).needs_map(),
                i as int,
                force,
                fuel as nat,
            ).0,
            final(plan)@ == old(plan)@ + walk_node(
                orig,
                old(self).needs_map(),
                i as int,
                force,
                fuel as nat,
            ).1,
        decreases fuel,
    {
        if fuel == 0 {
            return ;
        }
        let ghost s_entry = *self;
        let ghost nm0 = s_entry.needs_map();
        let auto = self.nodes[i].matrix_auto_update;
        let stale = self.nodes[i].matrix_world_needs_update;
        let wu = auto || stale || force;
        proof {
            lemma_structure_at(orig, s_entry, i as int);
            assert(orig.nodes@[i as int].matrix_auto_update == auto);
            assert(nm0[i as int] == stale);
        }
        let ghost first: Seq<UpdateStep> = if wu {
            seq![
                UpdateStep { node: i, parent: orig.nodes@[i as int].parent, recompute_local: auto },
            ]
        } else {
            Seq::empty()
        };
        if wu {
            let par = self.nodes[i].parent;
            plan.push(UpdateStep { node: i, parent: par, recompute_local: auto });
            self.nodes[i].matrix_world_needs_update = false;
            proof {
                assert(par == orig.nodes@[i as int].parent);
                let sa = *self;
                assert(sa.needs_map() =~= nm0.insert(i as int, false));
                lemma_wf_same_hierarchy(s_entry, sa);
                assert(same_structure(orig, sa));
            }
        }
        let ghost nm1 = self.needs_map();
        let nc = self.nodes[i].children.len();
        let ghost ch = orig.nodes@[i as int].children@;
        proof {
            lemma_structure_at(orig, *self, i as int);
            assert(self.nodes@[i as int].children == orig.nodes@[i as int].children);
            assert(nc == ch.len());
        }
        let ghost plan_mid = plan@;
        let mut k: usize = 0;
        while k < nc
            invariant
                k <= nc,
                1 <= fuel,
                i < self.nodes@.len(),
                self.nodes@.len() == s_entry.nodes@.len(),
                nc == ch.len(),
                ch == orig.nodes@[i as int].children@,
                self.wf(),
                same_structure(orig, *self),
                forall|j: int|
                    0 <= j < s_entry.nodes@.len() ==> #[trigger] self.nodes@[j] == (Object3D {
                        matrix_world_needs_update: self.nodes@[j].matrix_world_needs_update,
                        ..s_entry.nodes@[j]
                    }),
                walk_children(orig, nm1, ch, 0, wu, fuel as nat).0 == walk_children(
                    orig,
                    self.needs_map(),
                    ch,
                    k as int,
                    wu,
                    fuel as nat,
                ).0,
                plan_mid + walk_children(orig, nm1, ch, 0, wu, fuel as nat).1 == plan@
                    + walk_children(orig, self.needs_map(), ch, k as int, wu, fuel as nat).1,
            decreases nc - k,
        {
            proof {
                lemma_structure_at(orig, *self, i as int);
                assert(self.nodes@[i as int].children@.len() == nc);
            }
            let c = self.nodes[i].children[k];
            proof {
                assert(self.nodes@[i as int].children@[k as int] == c);
                assert(ch[k as int] == c);
                assert(self.node_ok(i as int));
                assert(c < self.nodes@.len());
            }
            let ghost nm_call = self.needs_map();
            let ghost plan_pre = plan@;
            let ghost s_pre = *self;
            self.update_walk(c, wu, fuel - 1, plan, Ghost(orig));
            proof {
                let rk = walk_children(orig, nm_call, ch, k as int, wu, fuel as nat);
                let r1 = walk_node(orig, nm_call, c as int, wu, (fuel - 1) as nat);
                let rk1 = walk_children(orig, r1.0, ch, k + 1, wu, fuel as nat);
                assert(rk.0 == rk1.0);
                assert(rk.1 == r1.1 + rk1.1);
                assert(plan@ == plan_pre + r1.1);
                assert((plan_pre + r1.1) + rk1.1 =~= plan_pre + (r1.1 + rk1.1));
                assert(self.needs_map() == r1.0);
                // flag-only changes compose across the recursive call
                assert forall|j: int|
                    0 <= j < s_entry.nodes@.len() implies #[trigger] self.nodes@[j] == (Object3D {
                        matrix_world_needs_update: self.nodes@[j].matrix_world_needs_update,
                        ..s_entry.nodes@[j]
                    }) by {
                    assert(self.nodes@[j] == (Object3D {
                        matrix_world_needs_update: self.nodes@[j].matrix_world_needs_update,
                        ..s_pre.nodes@[j]
                    }));
                    assert(s_pre.nodes@[j] == (Object3D {
                        matrix_world_needs_update: s_pre.nodes@[j].matrix_world_needs_update,
                        ..s_entry.nodes@[j]
                    }));
                }
            }
            k = k + 1;
        }
        proof {
            let full = walk_children(orig, nm1, ch, 0, wu, fuel as nat);
            let rest = walk_children(orig, self.needs_map(), ch, nc as int, wu, fuel as nat);
            assert(rest.0 == self.needs_map());
            assert(rest.1 == Seq::<UpdateStep>::empty());
            assert(plan_mid + full.1 == plan@ + rest.1);
            assert(plan@ + rest.1 =~= plan@);
            let r = walk_node(orig, nm0, i as int, force, fuel as nat);
            // the spec takes the same branch the code took
            assert(nm1 == if wu {
                nm0.insert(i as int, false)
            } else {
                nm0
            });
            assert(r.0 == full.0);
            assert(r.1 == first + full.1);
            assert(plan_mid == old(plan)@ + first);
            assert((old(plan)@ + first) + full.1 =~= old(plan)@ + (first + full.1));
        }
    }

    /// Recompute the schedule on which the subtree under `root` must have
    /// its world matrices recombined, clearing the staleness flags of the
    /// scheduled nodes.  A node is scheduled when its local matrix is
    /// recomposed automatically, when its world matrix was marked stale, or
    /// when any ancestor on this walk was scheduled; children always follow
    /// their parent in the schedule, so executing it in order always
    /// combines a child's local matrix with its parent's already-updated
    /// world matrix.  Nothing about the scene changes but the staleness
    /// flags.
    pub fn update_matrix_world(&mut self, root: usize, force: bool) -> (plan: Vec<UpdateStep>)
        requires
            old(self).wf(),
            root < old(self).nodes@.len(),
        ensures
            final(self).wf(),
            final(self).nodes@.len() == old(self).nodes@.len(),
            forall|j: int|
                0 <= j < old(self).nodes@.len() ==> #[trigger] final(self).nodes@[j] == (Object3D {
                    matrix_world_needs_update: final(self).nodes@[j].matrix_world_needs_update,
                    ..old(self).nodes@[j]
                }),
            final(self).needs_map() == spec_update(*old(self), root as int, force).0,
            plan@ == spec_update(*old(self), root as int, force).1,
    {
        let n = self.nodes.len();
        let mut plan: Vec<UpdateStep> = Vec::new();
        proof {
            assert(same_structure(*self, *self));
        }
        self.update_walk(root, force, n, &mut plan, Ghost(*self));
        plan
    }
}

/// The flag changes and schedule of one full `update_matrix_world` walk
/// from `root`: the walk is given fuel equal to the node count, which under
/// the scene-graph invariant always exceeds the tree depth.
pub open spec fn spec_update(s: Scene, root: int, force: bool) -> (Map<int, bool>, Seq<UpdateStep>) {
    walk_node(s, s.needs_map(), root, force, s.nodes@.len() as nat)
}

/// The schedule and flag changes of visiting one node: the node is
/// scheduled when its local matrix is recomposed automatically, when its
/// world matrix is stale, or when an ancestor on this visit was scheduled
/// (`force`); its children are then visited with `force` raised
/// accordingly.  `fuel` bounds the visit depth; a well-formed tree is never
/// deeper than the node count, so the fuel chosen by `update_matrix_world`
/// never runs out.
pub open spec fn walk_node(
    s: Scene,
    needs: Map<int, bool>,
    i: int,
    force: bool,
    fuel: nat,
) -> (Map<int, bool>, Seq<UpdateStep>)
    decreases fuel, 1int, 0int,
{
    if fuel == 0 || !(0 <= i < s.nodes@.len()) {
        (needs, Seq::empty())
    } else {
        let auto = s.nodes@[i].matrix_auto_update;
        let wu = auto || needs[i] || force;
        let needs1 = if wu {
            needs.insert(i, false)
        } else {
            needs
        };
        let first: Seq<UpdateStep> = if wu {
            seq![
                UpdateStep {
                    node: i as usize,
                    parent: s.nodes@[i].parent,
                    recompute_local: auto,
                },
            ]
        } else {
            Seq::empty()
        };
        let rest = walk_children(s, needs1, s.nodes@[i].children@, 0, wu, fuel);
        (rest.0, first + rest.1)
    }
}

/// The schedule and flag changes of visiting children `k..` of a node's
/// child list, left to right.
pub open spec fn walk_children(
    s: Scene,
    needs: Map<int, bool>,
    ch: Seq<usize>,
    k: int,
    force: bool,
    fuel: nat,
) -> (Map<int, bool>, Seq<UpdateStep>)
    decreases fuel, 0int, ch.len() - k,
{
    if fuel == 0 || !(0 <= k < ch.len()) {
        (needs, Seq::empty())
    } else {
        let r1 = walk_node(s, needs, ch[k] as int, force, (fuel - 1) as nat);
        let r2 = walk_children(s, r1.0, ch, k + 1, force, fuel);
        (r2.0, r1.1 + r2.1)
    }
}

/// The hierarchy and automatic-update settings two scenes must share for
/// one world-update schedule to describe both.
pub open spec fn same_structure(a: Scene, b: Scene) -> bool {
    &&& a.nodes@.len() == b.nodes@.len()
    &&& forall|j: int|
        0 <= j < a.nodes@.len() ==> {
            &&& #[trigger] b.nodes@[j].parent == a.nodes@[j].parent
            &&& b.nodes@[j].children == a.nodes@[j].children
            &&& b.nodes@[j].matrix_auto_update == a.nodes@[j].matrix_auto_update
        }
}

/// What `same_structure` says of one node, stated for instantiation.
proof fn lemma_structure_at(orig: Scene, s: Scene, j: int)
    requires
        same_structure(orig, s),
        0 <= j < orig.nodes@.len(),
    ensures
        s.nodes@[j].parent == orig.nodes@[j].parent,
        s.nodes@[j].children == orig.nodes@[j].children,
        s.nodes@[j].matrix_auto_update == orig.nodes@[j].matrix_auto_update,
{
    assert(s.nodes@[j].parent == orig.nodes@[j].parent);
}

/// Chains only read parent links, so scenes with the same parent links
/// agree on them.
proof fn lemma_up_ok_same_parents(s0: Scene, s1: Scene, i: int, f: nat)
    requires
        s1.len() == s0.len(),
        forall|j: int| 0 <= j < s0.len() ==> s1.parent_of(j) == s0.parent_of(j),
        s0.up_ok(i, f),
    ensures
        s1.up_ok(i, f),
    decreases f,
{
    assert(s1.parent_of(i) == s0.parent_of(i));
    match s0.nodes@[i].parent {
        None => {},
        Some(p) => {
            lemma_up_ok_same_parents(s0, s1, p as int, (f - 1) as nat);
        },
    }
}

/// Changes that leave every parent link and child list alone (flag or
/// transform writes) preserve the scene-graph invariant.
proof fn lemma_wf_same_hierarchy(s0: Scene, s1: Scene)
    requires
        s0.wf(),
        s1.nodes@.len() == s0.nodes@.len(),
        forall|j: int|
            0 <= j < s0.nodes@.len() ==> #[trigger] s1.nodes@[j].parent == s0.nodes@[j].parent
                && s1.nodes@[j].children == s0.nodes@[j].children,
    ensures
        s1.wf(),
{
    assert forall|i: int| 0 <= i < s1.len() implies #[trigger] s1.node_ok(i) by {
        assert(s0.node_ok(i));
        let n1 = s1.nodes@[i];
        let n0 = s0.nodes@[i];
        assert(n1.children == n0.children);
        assert forall|k: int|
            0 <= k < n1.children@.len() implies #[trigger] n1.children@[k] < s1.nodes@.len()
                && s1.nodes@[n1.children@[k] as int].parent == Some(i as usize) by {
            assert(n0.children@[k] == n1.children@[k]);
            assert(s0.nodes@[n0.children@[k] as int].parent == Some(i as usize));
        }
        match n1.parent {
            None => {},
            Some(p) => {
                assert(n0.parent == Some(p));
                assert(p < s0.nodes@.len());
                assert(s0.nodes@[p as int].children@.contains(i as usize));
                assert(s1.nodes@[p as int].parent == s0.nodes@[p as int].parent);
                assert(s1.nodes@[p as int].children == s0.nodes@[p as int].children);
            },
        }
    }
    assert forall|i: int| 0 <= i < s1.len() implies #[trigger] s1.rooted(i) by {
        assert(s0.rooted(i));
        let f = choose|f: nat| s0.up_ok(i, f);
        lemma_up_ok_same_parents(s0, s1, i, f);
        assert(s1.up_ok(i, f));
    }
}

/// No node is scheduled twice in the plan.
pub open spec fn distinct_nodes(p: Seq<UpdateStep>) -> bool {
    forall|j1: int, j2: int|
        0 <= j1 < p.len() && 0 <= j2 < p.len() && j1 != j2 ==> p[j1].node != p[j2].node
}

/// A child is never scheduled before its parent: no step's parent link
/// names a node whose own step comes at the same position or later.
pub open spec fn parent_first(p: Seq<UpdateStep>) -> bool {
    forall|j1: int, j2: int| 0 <= j2 <= j1 < p.len() ==> p[j2].parent != Some(p[j1].node)
}

/// Every step of `p` names an in-bounds node, carries that node's actual
/// parent link, and lies in the subtree reached from `anchor`.
pub open spec fn plan_steps_ok(s: Scene, p: Seq<UpdateStep>, anchor: int) -> bool {
    forall|j: int|
        0 <= j < p.len() ==> {
            &&& #[trigger] p[j].node < s.nodes@.len()
            &&& p[j].parent == s.nodes@[p[j].node as int].parent
            &&& s.reaches_up(p[j].node as int, anchor)
        }
}

/// Every step of `p` lies in the subtree of one of the children
/// `ch[k..]`.
spec fn steps_under_suffix(s: Scene, p: Seq<UpdateStep>, ch: Seq<usize>, k: int) -> bool {
    forall|j: int|
        0 <= j < p.len() ==> {
            &&& #[trigger] p[j].node < s.nodes@.len()
            &&& p[j].parent == s.nodes@[p[j].node as int].parent
            &&& exists|k2: int|
                k <= k2 < ch.len() && s.reaches_up(p[j].node as int, #[trigger] ch[k2] as int)
        }
}

/// Ancestry is antisymmetric below any node whose chain reaches a root.
proof fn lemma_reaches_up_antisym(s: Scene, a: int, b: int)
    requires
        0 <= a < s.len(),
        s.rooted(a),
        s.reaches_up(a, b),
        a != b,
    ensures
        !s.reaches_up(b, a),
{
    let f = choose|f: nat| s.up_ok(a, f);
    let g = choose|g: nat| s.up_hits(a, b, g);
    if s.reaches_up(b, a) {
        let h = choose|h: nat| s.up_hits(b, a, h);
        lemma_up_hits_antisym(s, a, b, f, g, h);
    }
}

/// One step up: a node is on its own parent's chain extended by itself.
proof fn lemma_child_reaches_parent(s: Scene, c: usize, i: usize, f: nat)
    requires
        (c as int) < s.len(),
        s.nodes@[c as int].parent == Some(i),
        (i as int) < s.len(),
        s.up_ok(c as int, f),
    ensures
        s.up_hits(c as int, i as int, 2),
        c != i,
        s.reaches_up(c as int, i as int),
    decreases f,
{
    lemma_no_self_parent(s, c, f);
    assert(s.up_hits(i as int, i as int, 1nat));
    assert(s.up_hits(c as int, i as int, 2nat));
}

/// Two children of one node whose subtrees share a descendant are the same
/// child: sibling subtrees are disjoint.
proof fn lemma_sibling_shared_descendant(s: Scene, i: usize, c1: usize, c2: usize, x: int)
    requires
        s.wf(),
        (i as int) < s.len(),
        (c1 as int) < s.len(),
        (c2 as int) < s.len(),
        s.nodes@[c1 as int].parent == Some(i),
        s.nodes@[c2 as int].parent == Some(i),
        s.reaches_up(x, c1 as int),
        s.reaches_up(x, c2 as int),
    ensures
        c1 == c2,
{
    if c1 != c2 {
        let f1 = choose|f: nat| s.up_hits(x, c1 as int, f);
        let f2 = choose|f: nat| s.up_hits(x, c2 as int, f);
        assert(s.rooted(c1 as int));
        assert(s.rooted(c2 as int));
        let g1 = choose|g: nat| s.up_ok(c1 as int, g);
        let g2 = choose|g: nat| s.up_ok(c2 as int, g);
        lemma_child_reaches_parent(s, c1, i, g1);
        lemma_child_reaches_parent(s, c2, i, g2);
        lemma_up_hits_linear(s, x, c1 as int, c2 as int, f1, f2);
        if s.up_hits(c1 as int, c2 as int, f2) {
            // c1's chain is c1, i, ...; so c2 is on i's chain, yet i is on c2's
            assert(s.up_hits(i as int, c2 as int, (f2 - 1) as nat));
            lemma_reaches_up_antisym(s, c2 as int, i as int);
        } else {
            assert(s.up_hits(c2 as int, c1 as int, f1));
            assert(s.up_hits(i as int, c1 as int, (f1 - 1) as nat));
            lemma_reaches_up_antisym(s, c1 as int, i as int);
        }
    }
}

/// Concatenating two well-ordered plan segments whose nodes are disjoint
/// and where no first-segment step names a second-segment node as parent
/// keeps the plan well ordered.
proof fn lemma_plan_concat(x: Seq<UpdateStep>, y: Seq<UpdateStep>)
    requires
        distinct_nodes(x),
        distinct_nodes(y),
        parent_first(x),
        parent_first(y),
        forall|j1: int, j2: int|
            0 <= j1 < x.len() && 0 <= j2 < y.len() ==> #[trigger] x[j1].node != #[trigger] y[j2].node,
        forall|j1: int, j2: int|
            0 <= j1 < x.len() && 0 <= j2 < y.len() ==> #[trigger] x[j1].parent != Some(
                #[trigger] y[j2].node,
            ),
    ensures
        distinct_nodes(x + y),
        parent_first(x + y),
{
    let z = x + y;
    assert forall|j1: int, j2: int|
        0 <= j1 < z.len() && 0 <= j2 < z.len() && j1 != j2 implies z[j1].node != z[j2].node by {
        if j1 < x.len() {
            assert(z[j1] == x[j1]);
        } else {
            assert(z[j1] == y[j1 - x.len()]);
        }
        if j2 < x.len() {
            assert(z[j2] == x[j2]);
        } else {
            assert(z[j2] == y[j2 - x.len()]);
        }
    }
    assert forall|j1: int, j2: int| 0 <= j2 <= j1 < z.len() implies z[j2].parent != Some(
        z[j1].node,
    ) by {
        if j1 < x.len() {
            assert(z[j1] == x[j1]);
        } else {
            assert(z[j1] == y[j1 - x.len()]);
        }
        if j2 < x.len() {
            assert(z[j2] == x[j2]);
        } else {
            assert(z[j2] == y[j2 - x.len()]);
        }
    }
}

/// The nodes on the parent chain from `x` up to the first occurrence of
/// `t`, within `fuel` steps.
spec fn up_chain(s: Scene, x: int, t: int, g: nat) -> Seq<int>
    decreases g,
{
    if g == 0 || !(0 <= x < s.len()) {
        Seq::empty()
    } else if x == t {
        seq![x]
    } else {
        match s.nodes@[x].parent {
            None => Seq::empty(),
            Some(p) => seq![x] + up_chain(s, p as int, t, (g - 1) as nat),
        }
    }
}

/// The chain from `x` to an ancestor `t` visits distinct, in-bounds nodes,
/// and already witnesses the ancestry with fuel equal to its own length.
proof fn lemma_up_chain_props(s: Scene, x: int, t: int, g: nat)
    requires
        s.wf(),
        s.nodes@.len() <= usize::MAX,
        s.up_hits(x, t, g),
    ensures
        ({
            let c = up_chain(s, x, t, g);
            &&& c.len() >= 1
            &&& forall|j: int| 0 <= j < c.len() ==> 0 <= #[trigger] c[j] < s.len()
            &&& c.no_duplicates()
            &&& s.up_hits(x, t, c.len() as nat)
        }),
    decreases g,
{
    let c = up_chain(s, x, t, g);
    if x == t {
        assert(c =~= seq![x]);
        assert(s.up_hits(x, t, 1nat));
    } else {
        let p = s.nodes@[x].parent.unwrap() as int;
        assert(s.up_hits(p, t, (g - 1) as nat));
        lemma_up_chain_props(s, p, t, (g - 1) as nat);
        let cp = up_chain(s, p, t, (g - 1) as nat);
        assert(c == seq![x] + cp);
        assert(c.len() == 1 + cp.len());
        assert(c[0] == x);
        assert(forall|j: int| 1 <= j < c.len() ==> c[j] == cp[j - 1]);
        // `x` does not recur higher up: that would make it its own ancestor
        assert(s.rooted(x));
        let f = choose|ff: nat| s.up_ok(x, ff);
        lemma_no_self_parent(s, x as usize, f);
        assert((x as usize) as int == x);
        assert(x != p);
        assert(s.up_hits(x, p, 2nat)) by {
            assert(s.up_hits(p, p, 1nat));
        }
        assert(forall|j: int| 0 <= j < cp.len() ==> s.up_hits(p, #[trigger] cp[j], (g - 1) as nat))
            by {
            lemma_up_chain_members(s, p, t, (g - 1) as nat);
        }
        assert forall|j: int| 0 <= j < cp.len() implies x != #[trigger] cp[j] by {
            if x == cp[j] {
                lemma_up_hits_antisym(s, x, p, f, 2, (g - 1) as nat);
            }
        }
        assert(c.no_duplicates());
        assert(s.up_hits(p, t, cp.len() as nat));
        assert(s.up_hits(x, t, (cp.len() + 1) as nat));
    }
}

/// Every chain entry is an ancestor-or-self of the chain's foot.
proof fn lemma_up_chain_members(s: Scene, x: int, t: int, g: nat)
    requires
        s.up_hits(x, t, g),
    ensures
        forall|j: int|
            0 <= j < up_chain(s, x, t, g).len() ==> s.up_hits(
                x,
                #[trigger] up_chain(s, x, t, g)[j],
                g,
            ),
    decreases g,
{
    let c = up_chain(s, x, t, g);
    if x == t {
    } else {
        let p = s.nodes@[x].parent.unwrap() as int;
        assert(s.up_hits(p, t, (g - 1) as nat));
        lemma_up_chain_members(s, p, t, (g - 1) as nat);
        let cp = up_chain(s, p, t, (g - 1) as nat);
        assert forall|j: int| 0 <= j < c.len() implies s.up_hits(x, #[trigger] c[j], g) by {
            if j == 0 {
                assert(c[j] == x);
            } else {
                assert(c[j] == cp[j - 1]);
                assert(s.up_hits(p, cp[j - 1], (g - 1) as nat));
            }
        }
    }
}

/// Ancestry within any fuel is ancestry within fuel equal to the node
/// count: a chain that reaches `t` never needs to revisit a node.
proof fn lemma_up_hits_fuel(s: Scene, x: int, t: int, g: nat)
    requires
        s.wf(),
        s.nodes@.len() <= usize::MAX,
        s.up_hits(x, t, g),
    ensures
        s.up_hits(x, t, s.nodes@.len() as nat),
{
    lemma_up_chain_props(s, x, t, g);
    let c = up_chain(s, x, t, g);
    c.unique_seq_to_set();
    vstd::set_lib::lemma_int_range(0, s.len());
    assert forall|e: int| c.to_set().contains(e) implies vstd::set_lib::set_int_range(
        0,
        s.len(),
    ).contains(e) by {
        assert(c.contains(e));
        let j = choose|j: int| 0 <= j < c.len() && c[j] == e;
    }
    vstd::set_lib::lemma_len_subset(c.to_set(), vstd::set_lib::set_int_range(0, s.len()));
    assert(c.len() <= s.nodes@.len());
    lemma_up_hits_mono(s, x, t, c.len() as nat, s.nodes@.len() as nat);
}

/// The schedule of one node visit is well ordered: each scheduled node is
/// in the visited subtree and carries its true parent link, no node is
/// scheduled twice, and a child's step never precedes its parent's.
proof fn lemma_walk_node_plan(s: Scene, needs: Map<int, bool>, i: int, force: bool, fuel: nat)
    requires
        s.wf(),
        s.nodes@.len() <= usize::MAX,
    ensures
        ({
            let p = walk_node(s, needs, i, force, fuel).1;
            &&& plan_steps_ok(s, p, i)
            &&& distinct_nodes(p)
            &&& parent_first(p)
        }),
    decreases fuel, 1int, 0int,
{
    if fuel == 0 || !(0 <= i < s.nodes@.len()) {
    } else {
        let iu = i as usize;
        assert(iu as int == i);
        let auto = s.nodes@[i].matrix_auto_update;
        let wu = auto || needs[i] || force;
        let needs1 = if wu {
            needs.insert(i, false)
        } else {
            needs
        };
        let first: Seq<UpdateStep> = if wu {
            seq![UpdateStep { node: iu, parent: s.nodes@[i].parent, recompute_local: auto }]
        } else {
            Seq::empty()
        };
        let ch = s.nodes@[i].children@;
        lemma_walk_children_plan(s, needs1, iu, 0, wu, fuel);
        let pc = walk_children(s, needs1, ch, 0, wu, fuel).1;
        let p = walk_node(s, needs, i, force, fuel).1;
        assert(p == first + pc);
        assert(s.node_ok(i));
        assert(s.rooted(i));
        let fr = choose|f: nat| s.up_ok(i, f);
        // subtree steps also lie under `i` itself
        assert forall|j: int| 0 <= j < pc.len() implies s.reaches_up(
            #[trigger] pc[j].node as int,
            i,
        ) by {
            let k2 = choose|k2: int|
                0 <= k2 < ch.len() && s.reaches_up(pc[j].node as int, ch[k2] as int);
            assert(ch[k2] < s.nodes@.len() && s.nodes@[ch[k2] as int].parent == Some(iu));
            assert(s.rooted(ch[k2] as int));
            let g = choose|g: nat| s.up_ok(ch[k2] as int, g);
            lemma_child_reaches_parent(s, ch[k2], iu, g);
            let h1 = choose|h: nat| s.up_hits(pc[j].node as int, ch[k2] as int, h);
            lemma_up_hits_trans(s, pc[j].node as int, ch[k2] as int, i, h1, 2);
        }
        // no subtree step is `i` itself, and none has a parent link into
        // the subtree's strict ancestors
        assert forall|j: int| 0 <= j < pc.len() implies #[trigger] pc[j].node != iu by {
            if pc[j].node == iu {
                let k2 = choose|k2: int|
                    0 <= k2 < ch.len() && s.reaches_up(pc[j].node as int, ch[k2] as int);
                assert(ch[k2] < s.nodes@.len() && s.nodes@[ch[k2] as int].parent == Some(iu));
                assert(s.rooted(ch[k2] as int));
                let g = choose|g: nat| s.up_ok(ch[k2] as int, g);
                lemma_child_reaches_parent(s, ch[k2], iu, g);
                lemma_reaches_up_antisym(s, ch[k2] as int, i);
            }
        }
        if wu {
            lemma_no_self_parent(s, iu, fr);
            assert forall|j: int| 0 <= j < pc.len() implies first[0].parent != Some(
                #[trigger] pc[j].node,
            ) by {
                match s.nodes@[i].parent {
                    None => {},
                    Some(pi) => {
                        if pc[j].node == pi {
                            let k2 = choose|k2: int|
                                0 <= k2 < ch.len() && s.reaches_up(pc[j].node as int, ch[k2] as int);
                            assert(ch[k2] < s.nodes@.len() && s.nodes@[ch[k2] as int].parent
                                == Some(iu));
                            assert(s.rooted(ch[k2] as int));
                            let g = choose|g: nat| s.up_ok(ch[k2] as int, g);
                            lemma_child_reaches_parent(s, ch[k2], iu, g);
                            // i's own parent cannot sit inside a child subtree
                            assert((pi as int) < s.len()) by {
                                assert(s.node_ok(i));
                            }
                            lemma_no_self_parent(s, iu, fr);
                            assert(s.up_hits(i, pi as int, 2)) by {
                                assert(s.up_hits(pi as int, pi as int, 1nat));
                            }
                            let hp = choose|h: nat| s.up_hits(pi as int, ch[k2] as int, h);
                            lemma_up_hits_trans(s, i, pi as int, ch[k2] as int, 2, hp);
                            lemma_reaches_up_antisym(s, ch[k2] as int, i);
                        }
                    },
                }
            }
            lemma_plan_concat(first, pc);
            assert(distinct_nodes(p));
            assert(parent_first(p));
            assert(s.up_hits(i, i, 1nat));
        } else {
            assert(first + pc =~= pc);
        }
        assert forall|j: int| 0 <= j < p.len() implies {
            &&& #[trigger] p[j].node < s.nodes@.len()
            &&& p[j].parent == s.nodes@[p[j].node as int].parent
            &&& s.reaches_up(p[j].node as int, i)
        } by {
            if wu && j == 0 {
                assert(p[j] == first[0]);
                assert(s.up_hits(i, i, 1nat));
            } else {
                let jj = if wu {
                    j - 1
                } else {
                    j
                };
                assert(p[j] == pc[jj]);
            }
        }
    }
}

/// The schedule of visiting children `k..` of node `i` is well ordered,
/// and each of its steps lies in the subtree of one of those children.
proof fn lemma_walk_children_plan(
    s: Scene,
    needs: Map<int, bool>,
    i: usize,
    k: int,
    force: bool,
    fuel: nat,
)
    requires
        s.wf(),
        s.nodes@.len() <= usize::MAX,
        (i as int) < s.len(),
    ensures
        ({
            let ch = s.nodes@[i as int].children@;
            let p = walk_children(s, needs, ch, k, force, fuel).1;
            &&& steps_under_suffix(s, p, ch, k)
            &&& distinct_nodes(p)
            &&& parent_first(p)
        }),
    decreases fuel, 0int, s.nodes@[i as int].children@.len() - k,
{
    let ch = s.nodes@[i as int].children@;
    assert(s.node_ok(i as int));
    if fuel == 0 || !(0 <= k < ch.len()) {
    } else {
        let c = ch[k];
        assert(c < s.nodes@.len() && s.nodes@[c as int].parent == Some(i));
        lemma_walk_node_plan(s, needs, c as int, force, (fuel - 1) as nat);
        let r1 = walk_node(s, needs, c as int, force, (fuel - 1) as nat);
        lemma_walk_children_plan(s, r1.0, i, k + 1, force, fuel);
        let p1 = r1.1;
        let p2 = walk_children(s, r1.0, ch, k + 1, force, fuel).1;
        let p = walk_children(s, needs, ch, k, force, fuel).1;
        assert(p == p1 + p2);
        // a step of a later sibling's subtree cannot lie under `c` too
        assert forall|j1: int, j2: int|
            0 <= j1 < p1.len() && 0 <= j2 < p2.len() implies #[trigger] p1[j1].node
            != #[trigger] p2[j2].node by {
            if p1[j1].node == p2[j2].node {
                let k2 = choose|k2: int|
                    k + 1 <= k2 < ch.len() && s.reaches_up(p2[j2].node as int, ch[k2] as int);
                assert(ch[k2] < s.nodes@.len() && s.nodes@[ch[k2] as int].parent == Some(i));
                assert(ch.no_duplicates());
                assert(ch[k] != ch[k2]);
                lemma_sibling_shared_descendant(s, i, c, ch[k2], p1[j1].node as int);
            }
        }
        assert forall|j1: int, j2: int|
            0 <= j1 < p1.len() && 0 <= j2 < p2.len() implies #[trigger] p1[j1].parent != Some(
            #[trigger] p2[j2].node,
        ) by {
            if p1[j1].parent == Some(p2[j2].node) {
                let pb = p2[j2].node;
                let k2 = choose|k2: int|
                    k + 1 <= k2 < ch.len() && s.reaches_up(pb as int, ch[k2] as int);
                assert(ch[k2] < s.nodes@.len() && s.nodes@[ch[k2] as int].parent == Some(i));
                assert(ch.no_duplicates());
                assert(ch[k] != ch[k2]);
                // the step's node hangs from `pb`, so it lies under `ch[k2]` too
                assert(p1[j1].node < s.nodes@.len());
                assert(s.nodes@[p1[j1].node as int].parent == Some(pb));
                assert(pb < s.nodes@.len()) by {
                    assert(s.node_ok(p1[j1].node as int));
                }
                assert(s.rooted(p1[j1].node as int));
                let g = choose|g: nat| s.up_ok(p1[j1].node as int, g);
                lemma_child_reaches_parent(s, p1[j1].node, pb, g);
                let h1 = choose|h: nat| s.up_hits(pb as int, ch[k2] as int, h);
                lemma_up_hits_trans(s, p1[j1].node as int, pb as int, ch[k2] as int, 2, h1);
                lemma_sibling_shared_descendant(s, i, c, ch[k2], p1[j1].node as int);
            }
        }
        lemma_plan_concat(p1, p2);
        assert forall|j: int| 0 <= j < p.len() implies {
            &&& #[trigger] p[j].node < s.nodes@.len()
            &&& p[j].parent == s.nodes@[p[j].node as int].parent
            &&& exists|k2: int|
                k <= k2 < ch.len() && s.reaches_up(p[j].node as int, #[trigger] ch[k2] as int)
        } by {
            if j < p1.len() {
                assert(p[j] == p1[j]);
                assert(s.reaches_up(p1[j].node as int, c as int));
                assert(k <= k < ch.len() && s.reaches_up(p[j].node as int, ch[k] as int));
            } else {
                assert(p[j] == p2[j - p1.len()]);
                let k2 = choose|k2: int|
                    k + 1 <= k2 < ch.len() && s.reaches_up(p2[j - p1.len()].node as int, ch[k2] as int);
                assert(k <= k2 < ch.len() && s.reaches_up(p[j].node as int, ch[k2] as int));
            }
        }
    }
}

/// Node `x` has a step in the plan `p`.
pub open spec fn scheduled(p: Seq<UpdateStep>, x: usize) -> bool {
    exists|j: int| 0 <= j < p.len() && #[trigger] p[j].node == x
}

/// The target of an ancestry witness is itself in bounds.
proof fn lemma_up_hits_target_bounds(s: Scene, x: int, t: int, f: nat)
    requires
        s.up_hits(x, t, f),
    ensures
        0 <= t < s.len(),
    decreases f,
{
    if x != t {
        let px = s.nodes@[x].parent.unwrap() as int;
        lemma_up_hits_target_bounds(s, px, t, (f - 1) as nat);
    }
}

/// A chain from `x` to a different ancestor `i` passes through a node
/// whose parent is `i`.
proof fn lemma_up_hits_decompose(s: Scene, x: int, i: int, f: nat)
    requires
        s.nodes@.len() <= usize::MAX,
        s.up_hits(x, i, f),
        x != i,
    ensures
        exists|c: int|
            0 <= c < s.len() && s.nodes@[c].parent == Some(i as usize) && #[trigger] s.up_hits(
                x,
                c,
                (f - 1) as nat,
            ),
    decreases f,
{
    let px = s.nodes@[x].parent.unwrap() as int;
    assert(s.up_hits(px, i, (f - 1) as nat));
    if px == i {
        assert(s.nodes@[x].parent == Some(i as usize));
        assert(s.up_hits(x, x, (f - 1) as nat));
    } else {
        lemma_up_hits_decompose(s, px, i, (f - 1) as nat);
        let c = choose|c: int|
            0 <= c < s.len() && s.nodes@[c].parent == Some(i as usize) && #[trigger] s.up_hits(
                px,
                c,
                ((f - 1) - 1) as nat,
            );
        assert(s.up_hits(x, c, (f - 1) as nat));
    }
}

/// Like `scheduled`, with the node given as a mathematical integer.
spec fn scheduled_int(p: Seq<UpdateStep>, y: int) -> bool {
    exists|j: int| 0 <= j < p.len() && (#[trigger] p[j].node as int) == y
}

/// The walk rewrites the staleness entries of scheduled nodes only.
proof fn lemma_walk_node_needs_frame(
    s: Scene,
    needs: Map<int, bool>,
    i: int,
    force: bool,
    fuel: nat,
    y: int,
)
    requires
        s.nodes@.len() <= usize::MAX,
        !scheduled_int(walk_node(s, needs, i, force, fuel).1, y),
    ensures
        walk_node(s, needs, i, force, fuel).0[y] == needs[y],
    decreases fuel, 1int, 0int,
{
    if fuel == 0 || !(0 <= i < s.nodes@.len()) {
    } else {
        let auto = s.nodes@[i].matrix_auto_update;
        let wu = auto || needs[i] || force;
        let needs1 = if wu {
            needs.insert(i, false)
        } else {
            needs
        };
        let first: Seq<UpdateStep> = if wu {
            seq![UpdateStep { node: i as usize, parent: s.nodes@[i].parent, recompute_local: auto }]
        } else {
            Seq::empty()
        };
        let ch = s.nodes@[i].children@;
        let pc = walk_children(s, needs1, ch, 0, wu, fuel).1;
        let p = walk_node(s, needs, i, force, fuel).1;
        assert(p == first + pc);
        assert forall|j: int| 0 <= j < pc.len() implies (#[trigger] pc[j].node as int) != y by {
            assert(p[first.len() + j] == pc[j]);
        }
        lemma_walk_children_needs_frame(s, needs1, ch, 0, wu, fuel, y);
        if wu {
            assert(p[0] == first[0]);
            assert((i as usize) as int == i);
            assert((p[0].node as int) != y);
            assert(y != i);
            assert(needs1[y] == needs[y]);
        }
    }
}

/// The children fold rewrites the staleness entries of scheduled nodes
/// only.
proof fn lemma_walk_children_needs_frame(
    s: Scene,
    needs: Map<int, bool>,
    ch: Seq<usize>,
    k: int,
    force: bool,
    fuel: nat,
    y: int,
)
    requires
        s.nodes@.len() <= usize::MAX,
        !scheduled_int(walk_children(s, needs, ch, k, force, fuel).1, y),
    ensures
        walk_children(s, needs, ch, k, force, fuel).0[y] == needs[y],
    decreases fuel, 0int, ch.len() - k,
{
    if fuel == 0 || !(0 <= k < ch.len()) {
    } else {
        let r1 = walk_node(s, needs, ch[k] as int, force, (fuel - 1) as nat);
        let p2 = walk_children(s, r1.0, ch, k + 1, force, fuel).1;
        let p = walk_children(s, needs, ch, k, force, fuel).1;
        assert(p == r1.1 + p2);
        assert forall|j: int| 0 <= j < r1.1.len() implies (#[trigger] r1.1[j].node as int) != y by {
            assert(p[j] == r1.1[j]);
        }
        assert forall|j: int| 0 <= j < p2.len() implies (#[trigger] p2[j].node as int) != y by {
            assert(p[r1.1.len() + j] == p2[j]);
        }
        lemma_walk_node_needs_frame(s, needs, ch[k] as int, force, (fuel - 1) as nat, y);
        lemma_walk_children_needs_frame(s, r1.0, ch, k + 1, force, fuel, y);
    }
}

/// Completeness of one node visit: a subtree node that recomposes
/// automatically, is marked stale, or is visited with `force` raised, is
/// scheduled.
proof fn lemma_walk_node_complete(
    s: Scene,
    needs: Map<int, bool>,
    i: int,
    force: bool,
    fuel: nat,
    x: usize,
)
    requires
        s.wf(),
        s.nodes@.len() <= usize::MAX,
        s.up_hits(x as int, i, fuel),
        s.nodes@[x as int].matrix_auto_update || needs[x as int] == true || force,
    ensures
        scheduled(walk_node(s, needs, i, force, fuel).1, x),
    decreases fuel, 1int, 0int,
{
    lemma_up_hits_target_bounds(s, x as int, i, fuel);
    assert((i as usize) as int == i);
    let auto = s.nodes@[i].matrix_auto_update;
    let wu = auto || needs[i] || force;
    let needs1 = if wu {
        needs.insert(i, false)
    } else {
        needs
    };
    let first: Seq<UpdateStep> = if wu {
        seq![UpdateStep { node: i as usize, parent: s.nodes@[i].parent, recompute_local: auto }]
    } else {
        Seq::empty()
    };
    let ch = s.nodes@[i].children@;
    let pc = walk_children(s, needs1, ch, 0, wu, fuel).1;
    let p = walk_node(s, needs, i, force, fuel).1;
    assert(p == first + pc);
    if x as int == i {
        assert(wu);
        assert(p[0].node == x);
    } else {
        lemma_up_hits_decompose(s, x as int, i, fuel);
        let c = choose|c: int|
            0 <= c < s.len() && s.nodes@[c].parent == Some(i as usize) && #[trigger] s.up_hits(
                x as int,
                c,
                (fuel - 1) as nat,
            );
        assert(s.node_ok(c));
        assert((i as usize) as int == i);
        assert(s.nodes@[i].children@.contains(c as usize));
        let m = choose|m: int| 0 <= m < ch.len() && ch[m] == c as usize;
        assert(needs1[x as int] == needs[x as int]);
        lemma_walk_children_complete(s, needs1, i as usize, 0, wu, fuel, x, m);
        let j = choose|j: int| 0 <= j < pc.len() && #[trigger] pc[j].node == x;
        assert(p[first.len() + j] == pc[j]);
    }
}

/// Completeness of a children fold: a node under one of the children
/// `ch[k..]` that must be recombined is scheduled.
proof fn lemma_walk_children_complete(
    s: Scene,
    needs: Map<int, bool>,
    i: usize,
    k: int,
    force: bool,
    fuel: nat,
    x: usize,
    m: int,
)
    requires
        s.wf(),
        s.nodes@.len() <= usize::MAX,
        (i as int) < s.len(),
        1 <= fuel,
        0 <= k <= m < s.nodes@[i as int].children@.len(),
        s.up_hits(x as int, s.nodes@[i as int].children@[m] as int, (fuel - 1) as nat),
        s.nodes@[x as int].matrix_auto_update || needs[x as int] == true || force,
    ensures
        scheduled(walk_children(s, needs, s.nodes@[i as int].children@, k, force, fuel).1, x),
    decreases fuel, 0int, s.nodes@[i as int].children@.len() - k,
{
    let ch = s.nodes@[i as int].children@;
    assert(s.node_ok(i as int));
    let r1 = walk_node(s, needs, ch[k] as int, force, (fuel - 1) as nat);
    let p1 = r1.1;
    let p2 = walk_children(s, r1.0, ch, k + 1, force, fuel).1;
    let p = walk_children(s, needs, ch, k, force, fuel).1;
    assert(p == p1 + p2);
    if k == m {
        lemma_walk_node_complete(s, needs, ch[k] as int, force, (fuel - 1) as nat, x);
        let j = choose|j: int| 0 <= j < p1.len() && #[trigger] p1[j].node == x;
        assert(p[j] == p1[j]);
    } else {
        // `x` hangs under a later sibling, so the visit of `ch[k]` neither
        // schedules it nor touches its staleness entry
        lemma_walk_node_plan(s, needs, ch[k] as int, force, (fuel - 1) as nat);
        assert(!scheduled_int(p1, x as int)) by {
            if scheduled_int(p1, x as int) {
                let j = choose|j: int| 0 <= j < p1.len() && (#[trigger] p1[j].node as int) == x as int;
                assert(s.reaches_up(p1[j].node as int, ch[k] as int));
                assert(s.up_hits(x as int, ch[m] as int, (fuel - 1) as nat));
                assert(s.reaches_up(x as int, ch[m] as int));
                assert(ch[k] < s.nodes@.len() && s.nodes@[ch[k] as int].parent == Some(i));
                assert(ch[m] < s.nodes@.len() && s.nodes@[ch[m] as int].parent == Some(i));
                assert(ch.no_duplicates());
                lemma_sibling_shared_descendant(s, i, ch[k], ch[m], x as int);
            }
        }
        lemma_walk_node_needs_frame(s, needs, ch[k] as int, force, (fuel - 1) as nat, x as int);
        assert(r1.0[x as int] == needs[x as int]);
        lemma_walk_children_complete(s, r1.0, i, k + 1, force, fuel, x, m);
        let j = choose|j: int| 0 <= j < p2.len() && #[trigger] p2[j].node == x;
        assert(p[p1.len() + j] == p2[j]);
    }
}

/// The coverage law of `update_matrix_world`: every node of the subtree
/// under `root` whose local matrix is recomposed automatically or whose
/// world matrix was marked stale is scheduled (as is, with `force`, every
/// node of the subtree).
pub proof fn lemma_schedule_complete(s: Scene, root: usize, force: bool, x: usize)
    requires
        s.wf(),
        (root as int) < s.len(),
        s.nodes@.len() <= usize::MAX,
        s.reaches_up(x as int, root as int),
        s.nodes@[x as int].matrix_auto_update || s.nodes@[x as int].matrix_world_needs_update
            || force,
    ensures
        scheduled(spec_update(s, root as int, force).1, x),
{
    let g = choose|g: nat| s.up_hits(x as int, root as int, g);
    lemma_up_hits_fuel(s, x as int, root as int, g);
    assert(s.needs_map()[x as int] == s.nodes@[x as int].matrix_world_needs_update);
    lemma_walk_node_complete(
        s,
        s.needs_map(),
        root as int,
        force,
        s.nodes@.len() as nat,
        x,
    );
}

/// The scheduling law of `update_matrix_world`: the walk is depth-first
/// pre-order, so the schedule never lists a child's step before its
/// parent's step, lists no node twice, and gives each step the node's true
/// parent link, with every scheduled node inside the subtree of `root`.
pub proof fn lemma_schedule_parent_first(s: Scene, root: usize, force: bool)
    requires
        s.wf(),
        (root as int) < s.len(),
        s.nodes@.len() <= usize::MAX,
    ensures
        parent_first(spec_update(s, root as int, force).1),
        distinct_nodes(spec_update(s, root as int, force).1),
        plan_steps_ok(s, spec_update(s, root as int, force).1, root as int),
{
    lemma_walk_node_plan(s, s.needs_map(), root as int, force, s.nodes@.len() as nat);
}

/// The re-parenting law: in a well-formed scene a node is owned by at most
/// one parent.  If two nodes both list `c` among their children, they are
/// the same node, so after `add` moves a child, its old parent no longer
/// lists it anywhere.
pub proof fn lemma_single_owner(s: Scene, c: usize, q1: usize, q2: usize)
    requires
        s.wf(),
        q1 < s.nodes@.len(),
        q2 < s.nodes@.len(),
        s.nodes@[q1 as int].children@.contains(c),
        s.nodes@[q2 as int].children@.contains(c),
    ensures
        q1 == q2,
{
    assert(s.node_ok(q1 as int));
    assert(s.node_ok(q2 as int));
    let k1 = choose|k: int|
        0 <= k < s.nodes@[q1 as int].children@.len() && s.nodes@[q1 as int].children@[k] == c;
    let k2 = choose|k: int|
        0 <= k < s.nodes@[q2 as int].children@.len() && s.nodes@[q2 as int].children@[k] == c;
    assert(s.nodes@[c as int].parent == Some(q1));
    assert(s.nodes@[c as int].parent == Some(q2));
}

/// Reaching a root within some fuel still holds with any larger fuel.
proof fn lemma_up_ok_mono(s: Scene, i: int, f1: nat, f2: nat)
    requires
        s.up_ok(i, f1),
        f1 <= f2,
    ensures
        s.up_ok(i, f2),
    decreases f1,
{
    match s.nodes@[i].parent {
        None => {},
        Some(p) => {
            lemma_up_ok_mono(s, p as int, (f1 - 1) as nat, (f2 - 1) as nat);
        },
    }
}

/// Hitting a node within some fuel still holds with any larger fuel.
proof fn lemma_up_hits_mono(s: Scene, i: int, t: int, f1: nat, f2: nat)
    requires
        s.up_hits(i, t, f1),
        f1 <= f2,
    ensures
        s.up_hits(i, t, f2),
    decreases f1,
{
    if i != t {
        match s.nodes@[i].parent {
            None => {},
            Some(p) => {
                lemma_up_hits_mono(s, p as int, t, (f1 - 1) as nat, (f2 - 1) as nat);
            },
        }
    }
}

/// No node on a root-reaching chain is its own parent.
proof fn lemma_no_self_parent(s: Scene, i: usize, f: nat)
    requires
        s.up_ok(i as int, f),
    ensures
        s.nodes@[i as int].parent != Some(i),
    decreases f,
{
    if s.nodes@[i as int].parent == Some(i) {
        assert(s.up_ok(i as int, (f - 1) as nat));
        lemma_no_self_parent(s, i, (f - 1) as nat);
    }
}

/// Clearing the parent link of one node keeps every root-reaching chain
/// root-reaching: chains through the cleared node now simply end there.
proof fn lemma_up_ok_unparent(s0: Scene, s1: Scene, c: int, i: int, f: nat)
    requires
        s0.len() == s1.len(),
        0 <= c < s1.len(),
        s1.nodes@[c].parent is None,
        forall|j: int| 0 <= j < s0.len() && j != c ==> s1.parent_of(j) == s0.parent_of(j),
        s0.up_ok(i, f),
    ensures
        s1.up_ok(i, f),
    decreases f,
{
    if i == c {
    } else {
        assert(s1.parent_of(i) == s0.parent_of(i));
        match s0.nodes@[i].parent {
            None => {},
            Some(p) => {
                lemma_up_ok_unparent(s0, s1, c, p as int, (f - 1) as nat);
            },
        }
    }
}

/// A chain that reaches a root without meeting node `c` is untouched by a
/// change of `c`'s parent link.
proof fn lemma_up_ok_avoid(s0: Scene, s1: Scene, c: int, i: int, f: nat)
    requires
        s0.len() == s1.len(),
        forall|j: int| 0 <= j < s0.len() && j != c ==> s1.parent_of(j) == s0.parent_of(j),
        s0.up_ok(i, f),
        !s0.up_hits(i, c, f),
    ensures
        s1.up_ok(i, f),
    decreases f,
{
    assert(i != c);
    assert(s1.parent_of(i) == s0.parent_of(i));
    match s0.nodes@[i].parent {
        None => {},
        Some(p) => {
            assert(!s0.up_hits(p as int, c, (f - 1) as nat));
            lemma_up_ok_avoid(s0, s1, c, p as int, (f - 1) as nat);
        },
    }
}

/// A chain that never meets node `c` at any fuel still never meets it after
/// a change of `c`'s parent link.
proof fn lemma_up_hits_avoid_all(s0: Scene, s1: Scene, c: int, i: int, g: nat)
    requires
        s0.len() == s1.len(),
        forall|j: int| 0 <= j < s0.len() && j != c ==> s1.parent_of(j) == s0.parent_of(j),
        forall|f: nat| !s0.up_hits(i, c, f),
    ensures
        !s1.up_hits(i, c, g),
    decreases g,
{
    if 0 <= i < s1.len() && g > 0 {
        assert(!s0.up_hits(i, c, 1nat));
        assert(i != c);
        assert(s1.parent_of(i) == s0.parent_of(i));
        match s0.nodes@[i].parent {
            None => {},
            Some(p) => {
                assert forall|f: nat| !s0.up_hits(p as int, c, f) by {
                    if s0.up_hits(p as int, c, f) {
                        assert(s0.up_hits(i, c, f + 1));
                    }
                }
                lemma_up_hits_avoid_all(s0, s1, c, p as int, (g - 1) as nat);
            },
        }
    }
}

/// A chain that met node `c` reaches a root again once `c`'s new parent
/// chain does: follow the old chain to `c`, then `c`'s new chain.
proof fn lemma_up_ok_reroute(s0: Scene, s1: Scene, c: int, i: int, f: nat, g: nat)
    requires
        s0.len() == s1.len(),
        forall|j: int| 0 <= j < s0.len() && j != c ==> s1.parent_of(j) == s0.parent_of(j),
        s0.up_ok(i, f),
        s0.up_hits(i, c, f),
        s1.up_ok(c, g),
    ensures
        s1.up_ok(i, (f + g) as nat),
    decreases f,
{
    if i == c {
        lemma_up_ok_mono(s1, c, g, (f + g) as nat);
    } else {
        assert(s1.parent_of(i) == s0.parent_of(i));
        match s0.nodes@[i].parent {
            None => {
                assert(!s0.up_hits(i, c, f));
            },
            Some(p) => {
                lemma_up_ok_reroute(s0, s1, c, p as int, (f - 1) as nat, g);
                lemma_up_ok_mono(s1, p as int, ((f - 1) + g) as nat, ((f + g) - 1) as nat);
            },
        }
    }
}

/// Ancestor chains compose: if `y` is on `x`'s chain and `z` on `y`'s,
/// then `z` is on `x`'s.
proof fn lemma_up_hits_trans(s: Scene, x: int, y: int, z: int, g: nat, h: nat)
    requires
        s.up_hits(x, y, g),
        s.up_hits(y, z, h),
    ensures
        s.up_hits(x, z, (g + h) as nat),
    decreases g,
{
    if x == y {
        lemma_up_hits_mono(s, y, z, h, (g + h) as nat);
    } else {
        match s.nodes@[x].parent {
            None => {},
            Some(p) => {
                lemma_up_hits_trans(s, p as int, y, z, (g - 1) as nat, h);
            },
        }
    }
}

/// The chain above a node is linear: two nodes on it are on each other's
/// chains, one way or the other.
proof fn lemma_up_hits_linear(s: Scene, x: int, a: int, b: int, f: nat, g: nat)
    requires
        s.up_hits(x, a, f),
        s.up_hits(x, b, g),
    ensures
        s.up_hits(a, b, g) || s.up_hits(b, a, f),
    decreases f + g,
{
    if x == a {
        lemma_up_hits_mono(s, x, b, g, g);
    } else if x == b {
    } else {
        match s.nodes@[x].parent {
            None => {},
            Some(p) => {
                lemma_up_hits_linear(s, p as int, a, b, (f - 1) as nat, (g - 1) as nat);
                if s.up_hits(b, a, (f - 1) as nat) {
                    lemma_up_hits_mono(s, b, a, (f - 1) as nat, f);
                }
                if s.up_hits(a, b, (g - 1) as nat) {
                    lemma_up_hits_mono(s, a, b, (g - 1) as nat, g);
                }
            },
        }
    }
}

/// Above a node whose chain reaches a root, ancestry is strict: if `b` is
/// a proper ancestor of `a`, then `a` is not on `b`'s chain.
proof fn lemma_up_hits_antisym(s: Scene, a: int, b: int, f: nat, g: nat, h: nat)
    requires
        s.up_ok(a, f),
        s.up_hits(a, b, g),
        a != b,
    ensures
        !s.up_hits(b, a, h),
    decreases f,
{
    if s.up_hits(b, a, h) {
        match s.nodes@[a].parent {
            None => {},
            Some(pa) => {
                assert(s.up_hits(pa as int, b, (g - 1) as nat));
                lemma_up_hits_trans(s, pa as int, b, a, (g - 1) as nat, h);
                if pa as int == a {
                    lemma_no_self_parent(s, pa, f);
                } else {
                    lemma_up_hits_antisym(
                        s,
                        pa as int,
                        a,
                        (f - 1) as nat,
                        ((g - 1) + h) as nat,
                        2,
                    );
                    assert(s.up_hits(pa as int, pa as int, 1nat));
                    assert(s.up_hits(a, pa as int, 2nat));
                }
            },
        }
    }
}

/// Appending a node leaves the parent chains of existing nodes intact.
proof fn lemma_up_ok_push(s0: Scene, s1: Scene, i: int, f: nat)
    requires
        s1.len() == s0.len() + 1,
        forall|j: int| 0 <= j < s0.len() ==> s1.parent_of(j) == s0.parent_of(j),
        0 <= i < s0.len(),
        s0.up_ok(i, f),
    ensures
        s1.up_ok(i, f),
    decreases f,
{
    assert(s1.parent_of(i) == s0.parent_of(i));
    match s0.nodes@[i].parent {
        None => {},
        Some(p) => {
            assert(s0.up_ok(p as int, (f - 1) as nat));
            lemma_up_ok_push(s0, s1, p as int, (f - 1) as nat);
        },
    }
}

} // verus!
