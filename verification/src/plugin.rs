//! The plugin: registration of outlines, actions, and the collisions of a frame.

use crate::cache_key::outline_cache_key;
use crate::float::F32;
use crate::image_source::SharedImage;
use crate::model;
use crate::model::CallView;
use crate::model::PluginView;
use crate::model::Sprite;
use crate::names;
use crate::names::NameMap;
use crate::outline::build_collision_outline;
use crate::outline::can_build;
use crate::outline::CollisionOutline;
use crate::outline::CollisionOutlineData;
use crate::outline::OutlineView;
use crate::outline::Rotation;
use crate::polygon;
use crate::sat;
use crate::sat::Direction;
use crate::scene;
use crate::scene::Correction;
use crate::scene::CorrectionView;
use crate::scene::GameObject;
use crate::scene::Scene;
use crate::simplify;
use crate::vec2::Vec2;
use std::collections::HashMap;
use std::sync::Arc;
use vstd::prelude::*;

verus! {

broadcast use vstd::std_specs::hash::group_hash_axioms;

/// A command for the plugin.
#[derive(Debug)]
pub enum TerrainCollisionCall {
    /// Makes sure that a dynamic object has the outline of this image. Nothing is
    /// built if the active key of the object is that of the image and settings.
    EnsureDynamicOutlineForImage {
        name: String,
        rgba_bytes: Vec<u8>,
        sprite_dims: (u32, u32),
        object_size: (F32, F32),
        threshold: u8,
        rdp_epsilon: F32,
    },
    /// The same with a decoded image, which is shared and not copied.
    PinCollisionImage {
        name: String,
        image: SharedImage,
        object_size: (F32, F32),
        threshold: u8,
        rdp_epsilon: F32,
    },
    /// Removes the outline of a dynamic object, and its active key.
    UnregisterDynamicOutline { name: String },
}

impl View for TerrainCollisionCall {
    type V = CallView;

    open spec fn view(&self) -> CallView {
        match *self {
            TerrainCollisionCall::EnsureDynamicOutlineForImage {
                name,
                rgba_bytes,
                sprite_dims,
                object_size,
                threshold,
                rdp_epsilon,
            } => CallView::Ensure {
                name: name@,
                sprite: sprite_of(
                    rgba_bytes@,
                    sprite_dims,
                    object_size,
                    threshold,
                    rdp_epsilon,
                ),
            },
            TerrainCollisionCall::PinCollisionImage {
                name,
                image,
                object_size,
                threshold,
                rdp_epsilon,
            } => CallView::Pin {
                name: name@,
                image,
                size: object_size,
                threshold,
                epsilon: rdp_epsilon,
            },
            TerrainCollisionCall::UnregisterDynamicOutline { name } => CallView::Unregister {
                name: name@,
            },
        }
    }
}

impl Clone for TerrainCollisionCall {
    fn clone(&self) -> (r: Self)
        ensures
            r@ == self@,
    {
        match self {
            TerrainCollisionCall::EnsureDynamicOutlineForImage {
                name,
                rgba_bytes,
                sprite_dims,
                object_size,
                threshold,
                rdp_epsilon,
            } => {
                let bytes = rgba_bytes.clone();
                assert(bytes@ =~= rgba_bytes@);
                TerrainCollisionCall::EnsureDynamicOutlineForImage {
                    name: name.clone(),
                    rgba_bytes: bytes,
                    sprite_dims: *sprite_dims,
                    object_size: *object_size,
                    threshold: *threshold,
                    rdp_epsilon: *rdp_epsilon,
                }
            },
            TerrainCollisionCall::PinCollisionImage {
                name,
                image,
                object_size,
                threshold,
                rdp_epsilon,
            } => TerrainCollisionCall::PinCollisionImage {
                name: name.clone(),
                image: image.clone(),
                object_size: *object_size,
                threshold: *threshold,
                rdp_epsilon: *rdp_epsilon,
            },
            TerrainCollisionCall::UnregisterDynamicOutline { name } =>
                TerrainCollisionCall::UnregisterDynamicOutline { name: name.clone() },
        }
    }
}

pub open spec fn sprite_of(
    bytes: Seq<u8>,
    dims: (u32, u32),
    size: (F32, F32),
    threshold: u8,
    epsilon: F32,
) -> Sprite {
    Sprite { bytes, dims, size, threshold, epsilon }
}

/// A member of a group.
#[derive(Debug)]
struct GroupMember {
    object_name: String,
    outline: CollisionOutline,
}

impl View for GroupMember {
    type V = (Seq<char>, OutlineView);

    closed spec fn view(&self) -> (Seq<char>, OutlineView) {
        (self.object_name@, self.outline@)
    }
}

/// Terrain that consists of several objects.
#[derive(Debug)]
struct CollisionGroup {
    members: Vec<GroupMember>,
}

impl View for CollisionGroup {
    type V = Seq<(Seq<char>, OutlineView)>;

    closed spec fn view(&self) -> Seq<(Seq<char>, OutlineView)> {
        Seq::new(self.members@.len(), |i: int| self.members@[i]@)
    }
}

/// Keeps objects out of terrain, by the outlines of their sprites.
pub struct TerrainCollisionPlugin {
    terrain: NameMap<CollisionOutline>,
    dynamic_outlines: NameMap<CollisionOutline>,
    dynamic_outline_active_keys: NameMap<u64>,
    explicit_dynamic: Vec<String>,
    groups: NameMap<CollisionGroup>,
    outline_cache: HashMap<u64, Arc<CollisionOutlineData>>,
    /// How much of the momentum against a push comes back: 0 absorbs it, 1 is
    /// elastic.
    pub restitution: F32,
}

impl View for TerrainCollisionPlugin {
    type V = PluginView;

    closed spec fn view(&self) -> PluginView {
        PluginView {
            terrain: self.terrain@,
            dynamic_outlines: self.dynamic_outlines@,
            active_keys: self.dynamic_outline_active_keys@,
            explicit_dynamic: scene::texts(self.explicit_dynamic@),
            groups: self.groups@,
            cache: self.outline_cache@.map_values(|d: Arc<CollisionOutlineData>| d@),
            restitution: self.restitution,
        }
    }
}

impl TerrainCollisionPlugin {
    /// A plugin without any outlines. It absorbs momentum.
    pub fn new() -> (r: Self)
        ensures
            r@ == PluginView::initial(),
    {
        let r = TerrainCollisionPlugin {
            terrain: NameMap::new(),
            dynamic_outlines: NameMap::new(),
            dynamic_outline_active_keys: NameMap::new(),
            explicit_dynamic: Vec::new(),
            groups: NameMap::new(),
            outline_cache: HashMap::new(),
            restitution: F32::zero(),
        };
        assert(r@ =~= PluginView::initial());
        r
    }

    /// Sets how much of the momentum against a push comes back.
    pub fn set_restitution(&mut self, restitution: F32)
        ensures
            final(self)@ == (PluginView { restitution, ..old(self)@ }),
    {
        self.restitution = restitution;
    }

    // ---- outlines ----

    fn get_or_build(
        &mut self,
        rgba_bytes: &[u8],
        sprite_dims: (u32, u32),
        object_size: (F32, F32),
        threshold: u8,
        rdp_epsilon: F32,
    ) -> (r: Option<CollisionOutline>)
        requires
            old(self)@.buildable(
                sprite_of(rgba_bytes@, sprite_dims, object_size, threshold, rdp_epsilon),
            ),
        ensures
            ({
                let sprite = sprite_of(
                    rgba_bytes@,
                    sprite_dims,
                    object_size,
                    threshold,
                    rdp_epsilon,
                );
                &&& final(self)@ == old(self)@.remembering(sprite.key(), sprite)
                &&& match r {
                    Some(o) => old(self)@.built(sprite.key(), sprite) == Some(o@),
                    None => old(self)@.built(sprite.key(), sprite) is None,
                }
            }),
    {
        let key = outline_cache_key(
            rgba_bytes,
            sprite_dims.0,
            sprite_dims.1,
            object_size,
            threshold,
            rdp_epsilon,
        );
        self.get_or_build_for_key(
            key,
            rgba_bytes,
            sprite_dims,
            object_size,
            threshold,
            rdp_epsilon,
        )
    }

    fn get_or_build_for_key(
        &mut self,
        key: u64,
        rgba_bytes: &[u8],
        sprite_dims: (u32, u32),
        object_size: (F32, F32),
        threshold: u8,
        rdp_epsilon: F32,
    ) -> (r: Option<CollisionOutline>)
        requires
            old(self)@.cache.contains_key(key) || sprite_of(
                rgba_bytes@,
                sprite_dims,
                object_size,
                threshold,
                rdp_epsilon,
            ).computable(),
        ensures
            ({
                let sprite = sprite_of(
                    rgba_bytes@,
                    sprite_dims,
                    object_size,
                    threshold,
                    rdp_epsilon,
                );
                &&& final(self)@ == old(self)@.remembering(key, sprite)
                &&& match r {
                    Some(o) => old(self)@.built(key, sprite) == Some(o@),
                    None => old(self)@.built(key, sprite) is None,
                }
            }),
    {
        let ghost before = self@;
        if let Some(data) = self.outline_cache.get(&key) {
            assert(before.cache.contains_key(key));
            return Some(CollisionOutline { data: Arc::clone(data) });
        }
        assert(!before.cache.contains_key(key));
        match build_collision_outline(
            rgba_bytes,
            sprite_dims.0,
            sprite_dims.1,
            object_size,
            threshold,
            rdp_epsilon,
        ) {
            Some(outline) => {
                self.outline_cache.insert(key, Arc::clone(&outline.data));
                assert(self@.cache =~= before.cache.insert(key, outline@));
                assert(self@ =~= before.remembering(
                    key,
                    sprite_of(rgba_bytes@, sprite_dims, object_size, threshold, rdp_epsilon),
                ));
                Some(outline)
            },
            None => None,
        }
    }

    /// Whether the outline for a sprite is cached or can be computed.
    pub fn is_buildable(
        &self,
        rgba_bytes: &[u8],
        sprite_dims: (u32, u32),
        object_size: (F32, F32),
        threshold: u8,
        rdp_epsilon: F32,
    ) -> (r: bool)
        ensures
            r == self@.buildable(
                sprite_of(rgba_bytes@, sprite_dims, object_size, threshold, rdp_epsilon),
            ),
    {
        let key = outline_cache_key(
            rgba_bytes,
            sprite_dims.0,
            sprite_dims.1,
            object_size,
            threshold,
            rdp_epsilon,
        );
        self.outline_cache.contains_key(&key) || can_build(
            rgba_bytes,
            sprite_dims.0,
            sprite_dims.1,
            threshold,
            rdp_epsilon,
        )
    }

    /// Whether the outline for a sprite is that of the object already, is cached,
    /// or can be computed.
    pub fn can_ensure(
        &self,
        name: &String,
        rgba_bytes: &[u8],
        sprite_dims: (u32, u32),
        object_size: (F32, F32),
        threshold: u8,
        rdp_epsilon: F32,
    ) -> (r: bool)
        ensures
            ({
                let sprite = sprite_of(
                    rgba_bytes@,
                    sprite_dims,
                    object_size,
                    threshold,
                    rdp_epsilon,
                );
                r == (self@.up_to_date(name@, sprite) || self@.buildable(sprite))
            }),
    {
        let key = outline_cache_key(
            rgba_bytes,
            sprite_dims.0,
            sprite_dims.1,
            object_size,
            threshold,
            rdp_epsilon,
        );
        if let Some(k) = self.dynamic_outline_active_keys.get(name) {
            if *k == key {
                return true;
            }
        }
        self.is_buildable(rgba_bytes, sprite_dims, object_size, threshold, rdp_epsilon)
    }

    // ---- registration ----

    /// Registers an object as terrain. Returns `false`, and changes nothing, if
    /// its sprite has no outline.
    pub fn register_terrain(
        &mut self,
        name: String,
        rgba_bytes: &[u8],
        sprite_dims: (u32, u32),
        object_size: (F32, F32),
        threshold: u8,
        rdp_epsilon: F32,
    ) -> (r: bool)
        requires
            old(self)@.buildable(
                sprite_of(rgba_bytes@, sprite_dims, object_size, threshold, rdp_epsilon),
            ),
        ensures
            match old(self)@.with_terrain(
                name@,
                sprite_of(rgba_bytes@, sprite_dims, object_size, threshold, rdp_epsilon),
            ) {
                Some(after) => r && final(self)@ == after,
                None => !r && final(self)@ == old(self)@,
            },
    {
        match self.get_or_build(rgba_bytes, sprite_dims, object_size, threshold, rdp_epsilon) {
            Some(o) => {
                self.terrain.insert(name, o);
                true
            },
            None => false,
        }
    }

    /// Registers an object as terrain with an outline, which may be shared.
    pub fn register_shared_terrain(&mut self, name: String, outline: CollisionOutline)
        ensures
            final(self)@ == old(self)@.sharing_terrain(name@, outline@),
    {
        self.terrain.insert(name, outline);
    }

    /// Builds an outline for sharing, without registering or caching it.
    pub fn build_shared_outline(
        rgba_bytes: &[u8],
        sprite_dims: (u32, u32),
        object_size: (F32, F32),
        threshold: u8,
        rdp_epsilon: F32,
    ) -> (r: Option<CollisionOutline>)
        requires
            sprite_of(
                rgba_bytes@,
                sprite_dims,
                object_size,
                threshold,
                rdp_epsilon,
            ).computable(),
        ensures
            match r {
                Some(o) => sprite_of(
                    rgba_bytes@,
                    sprite_dims,
                    object_size,
                    threshold,
                    rdp_epsilon,
                ).outline() == Some(o@),
                None => sprite_of(
                    rgba_bytes@,
                    sprite_dims,
                    object_size,
                    threshold,
                    rdp_epsilon,
                ).outline() is None,
            },
    {
        build_collision_outline(
            rgba_bytes,
            sprite_dims.0,
            sprite_dims.1,
            object_size,
            threshold,
            rdp_epsilon,
        )
    }

    /// Registers an outline for an object that is no terrain, which then collides
    /// with its outline and not with its box. Returns `false`, and changes
    /// nothing, if the sprite has no outline.
    pub fn register_dynamic_outline(
        &mut self,
        name: String,
        rgba_bytes: &[u8],
        sprite_dims: (u32, u32),
        object_size: (F32, F32),
        threshold: u8,
        rdp_epsilon: F32,
    ) -> (r: bool)
        requires
            old(self)@.buildable(
                sprite_of(rgba_bytes@, sprite_dims, object_size, threshold, rdp_epsilon),
            ),
        ensures
            match old(self)@.with_dynamic_outline(
                name@,
                sprite_of(rgba_bytes@, sprite_dims, object_size, threshold, rdp_epsilon),
            ) {
                Some(after) => r && final(self)@ == after,
                None => !r && final(self)@ == old(self)@,
            },
    {
        let key = outline_cache_key(
            rgba_bytes,
            sprite_dims.0,
            sprite_dims.1,
            object_size,
            threshold,
            rdp_epsilon,
        );
        match self.get_or_build_for_key(
            key,
            rgba_bytes,
            sprite_dims,
            object_size,
            threshold,
            rdp_epsilon,
        ) {
            Some(o) => {
                self.dynamic_outlines.insert(name.clone(), o);
                self.dynamic_outline_active_keys.insert(name, key);
                true
            },
            None => false,
        }
    }

    /// Makes sure that an object has the outline of a sprite. Does nothing if its
    /// active key is already that of the sprite.
    pub fn ensure_dynamic_outline_for_image(
        &mut self,
        name: String,
        rgba_bytes: &[u8],
        sprite_dims: (u32, u32),
        object_size: (F32, F32),
        threshold: u8,
        rdp_epsilon: F32,
    ) -> (r: bool)
        requires
            old(self)@.up_to_date(
                name@,
                sprite_of(rgba_bytes@, sprite_dims, object_size, threshold, rdp_epsilon),
            ) || old(self)@.buildable(
                sprite_of(rgba_bytes@, sprite_dims, object_size, threshold, rdp_epsilon),
            ),
        ensures
            match old(self)@.ensuring_dynamic_outline(
                name@,
                sprite_of(rgba_bytes@, sprite_dims, object_size, threshold, rdp_epsilon),
            ) {
                Some(after) => r && final(self)@ == after,
                None => !r && final(self)@ == old(self)@,
            },
    {
        let key = outline_cache_key(
            rgba_bytes,
            sprite_dims.0,
            sprite_dims.1,
            object_size,
            threshold,
            rdp_epsilon,
        );
        if let Some(k) = self.dynamic_outline_active_keys.get(&name) {
            if *k == key {
                return true;
            }
        }
        match self.get_or_build_for_key(
            key,
            rgba_bytes,
            sprite_dims,
            object_size,
            threshold,
            rdp_epsilon,
        ) {
            Some(o) => {
                self.dynamic_outlines.insert(name.clone(), o);
                self.dynamic_outline_active_keys.insert(name, key);
                true
            },
            None => false,
        }
    }

    /// Removes the outline of an object, which then collides with its box.
    pub fn unregister_dynamic_outline(&mut self, name: &str)
        ensures
            final(self)@ == old(self)@.without_dynamic_outline(name@),
    {
        let name = name.to_owned();
        self.dynamic_outlines.remove(&name);
        self.dynamic_outline_active_keys.remove(&name);
    }

    /// The key of the outline of an object, if it has one.
    pub fn active_dynamic_outline_key(&self, name: &str) -> (r: Option<u64>)
        ensures
            r == names::lookup(self@.active_keys, name@),
    {
        match self.dynamic_outline_active_keys.get(&name.to_owned()) {
            Some(k) => Some(*k),
            None => None,
        }
    }

    /// Lets an object collide with terrain even if it is a platform.
    pub fn add_dynamic(&mut self, name: String)
        ensures
            final(self)@ == old(self)@.with_explicit_dynamic(name@),
    {
        let ghost before = self@;
        self.explicit_dynamic.push(name);
        assert(self@.explicit_dynamic =~= before.explicit_dynamic.push(name@));
    }

    /// Adds an object to a group of terrain. The members of a group are tested as
    /// one merged mesh, which eliminates seam artifacts at the boundaries of tiles.
    ///
    /// A box, and each polygon of an outline, is pushed as by one tile where the
    /// members that it overlaps push it in the same way, and where the farthest of
    /// their pushes takes it out of all of them. Pushes of which none does the work of
    /// another add up, such as those of a floor and a wall. So a seam can still show in one
    /// case: what has sunk in deeper than it reaches over either of two members is
    /// pushed by their facing sides, and not up.
    ///
    /// Returns `false`, and changes nothing, if the sprite has no outline.
    pub fn register_group_member(
        &mut self,
        group_name: String,
        object_name: String,
        rgba_bytes: &[u8],
        sprite_dims: (u32, u32),
        object_size: (F32, F32),
        threshold: u8,
        rdp_epsilon: F32,
    ) -> (r: bool)
        requires
            old(self)@.buildable(
                sprite_of(rgba_bytes@, sprite_dims, object_size, threshold, rdp_epsilon),
            ),
        ensures
            match old(self)@.with_group_member(
                group_name@,
                object_name@,
                sprite_of(rgba_bytes@, sprite_dims, object_size, threshold, rdp_epsilon),
            ) {
                Some(after) => r && final(self)@ == after,
                None => !r && final(self)@ == old(self)@,
            },
    {
        let ghost before = self@;
        match self.get_or_build(rgba_bytes, sprite_dims, object_size, threshold, rdp_epsilon) {
            Some(outline) => {
                let ghost members = before.members(group_name@);
                let ghost member = (object_name@, outline@);
                let k: usize = self.groups.find(&group_name);
                if k < self.groups.entries.len() {
                    proof {
                        names::lemma_place(before.groups, group_name@);
                        assert(before.groups[k as int].1 == members);
                    }
                    self.groups.entries[k].1.members.push(GroupMember { object_name, outline });
                    assert(self.groups.entries@[k as int].1@ =~= members.push(member));
                    assert(self@.groups =~= before.groups.update(
                        k as int,
                        (group_name@, members.push(member)),
                    ));
                } else {
                    let mut group = CollisionGroup { members: Vec::new() };
                    group.members.push(GroupMember { object_name, outline });
                    assert(group@ =~= members.push(member));
                    self.groups.insert(group_name, group);
                }
                true
            },
            None => false,
        }
    }

    /// Removes all members of a group, but not the group.
    pub fn clear_group(&mut self, group_name: &str)
        ensures
            final(self)@ == old(self)@.with_group_cleared(group_name@),
    {
        let group_name = group_name.to_owned();
        if self.groups.contains(&group_name) {
            let group = CollisionGroup { members: Vec::new() };
            assert(group@ =~= Seq::<(Seq<char>, OutlineView)>::empty());
            self.groups.insert(group_name, group);
        }
    }

    /// Registers the outline of a decoded image for an object that is no terrain.
    /// An image without pixels has none.
    pub fn register_dynamic_outline_from_image(
        &mut self,
        name: String,
        image: &SharedImage,
        object_size: (F32, F32),
        threshold: u8,
        rdp_epsilon: F32,
    ) -> (r: bool)
        requires
            model::blank(*image) || old(self)@.buildable(
                model::image_sprite(*image, object_size, threshold, rdp_epsilon),
            ),
        ensures
            match old(self)@.with_image(
                name@,
                *image,
                object_size,
                threshold,
                rdp_epsilon,
            ) {
                Some(after) => r && final(self)@ == after,
                None => !r && final(self)@ == old(self)@,
            },
    {
        let w = image.width();
        let h = image.height();
        if w == 0 || h == 0 {
            return false;
        }
        self.register_dynamic_outline(
            name,
            image.as_raw().as_slice(),
            (w, h),
            object_size,
            threshold,
            rdp_epsilon,
        )
    }

    /// [`Self::register_dynamic_outline_from_image`] where the outline can be
    /// computed; `None`, and nothing is changed, where it cannot.
    pub fn try_register_dynamic_outline_from_image(
        &mut self,
        name: String,
        image: &SharedImage,
        object_size: (F32, F32),
        threshold: u8,
        rdp_epsilon: F32,
    ) -> (r: Option<bool>)
        ensures
            r is None <==> !model::blank(*image) && !old(self)@.buildable(
                model::image_sprite(*image, object_size, threshold, rdp_epsilon),
            ),
            r is None ==> final(self)@ == old(self)@,
            r is Some ==> match old(self)@.with_image(
                name@,
                *image,
                object_size,
                threshold,
                rdp_epsilon,
            ) {
                Some(after) => r == Some(true) && final(self)@ == after,
                None => r == Some(false) && final(self)@ == old(self)@,
            },
    {
        let w = image.width();
        let h = image.height();
        if w == 0 || h == 0 || self.is_buildable(
            image.as_raw().as_slice(),
            (w, h),
            object_size,
            threshold,
            rdp_epsilon,
        ) {
            Some(
                self.register_dynamic_outline_from_image(
                    name,
                    image,
                    object_size,
                    threshold,
                    rdp_epsilon,
                ),
            )
        } else {
            None
        }
    }

    // ---- queries ----

    /// The polygons of the outline of an object at a position, with a rotation;
    /// `None` if the object has no outline.
    pub fn dynamic_outline_world_hulls(
        &self,
        name: &str,
        outline_position: (F32, F32),
        outline_rotation: Rotation,
    ) -> (r: Option<Vec<Vec<(F32, F32)>>>)
        ensures
            match (r, names::lookup(self@.dynamic_outlines, name@)) {
                (Some(hulls), Some(o)) => points(hulls@) == o.placed_hulls(
                    Vec2 { x: outline_position.0, y: outline_position.1 },
                    outline_rotation,
                ),
                (None, None) => true,
                _ => false,
            },
    {
        let outline = match self.dynamic_outlines.get(&name.to_owned()) {
            Some(o) => o,
            None => {
                return None;
            },
        };
        let hulls = outline.world_hulls(Vec2::from_tuple(outline_position), outline_rotation);
        let mut r: Vec<Vec<(F32, F32)>> = Vec::with_capacity(hulls.len());
        for i in 0..hulls.len()
            invariant
                points(r@) == polygon::corners(hulls@).take(i as int),
        {
            let ghost before = r@;
            r.push(tuples(&hulls[i]));
            assert(points(r@) =~= points(before).push(hulls@[i as int]@));
            assert(points(r@) =~= polygon::corners(hulls@).take(i + 1));
        }
        assert(polygon::corners(hulls@).take(hulls@.len() as int) =~= polygon::corners(hulls@));
        Some(r)
    }

    /// Whether a circle, as a polygon with a corner in each of the directions,
    /// overlaps the outline of an object; `None` if the object has no outline.
    pub fn circle_overlaps_dynamic_outline(
        &self,
        name: &str,
        circle_center: (F32, F32),
        circle_radius: F32,
        directions: &[Direction],
        outline_position: (F32, F32),
        outline_rotation: Rotation,
    ) -> (r: Option<bool>)
        ensures
            match names::lookup(self@.dynamic_outlines, name@) {
                Some(o) => r == Some(
                    sat::circle_overlaps(
                        Vec2 { x: circle_center.0, y: circle_center.1 },
                        circle_radius,
                        directions@,
                        o,
                        Vec2 { x: outline_position.0, y: outline_position.1 },
                        outline_rotation,
                    ),
                ),
                None => r is None,
            },
    {
        match self.dynamic_outlines.get(&name.to_owned()) {
            Some(outline) => Some(
                sat::circle_overlaps_outline(
                    Vec2::from_tuple(circle_center),
                    circle_radius,
                    directions,
                    outline,
                    Vec2::from_tuple(outline_position),
                    outline_rotation,
                ),
            ),
            None => None,
        }
    }

    // ---- actions and commands ----

    /// Carries out an action, which is a word with a colon and a name. Returns
    /// `false`, and changes nothing, if there is no such action.
    pub fn on_action(&mut self, data: &str) -> (r: bool)
        ensures
            match old(self)@.acting(data@) {
                Some(after) => r && final(self)@ == after,
                None => !r && final(self)@ == old(self)@,
            },
    {
        if let Some(name) = strip_prefix(data, "register_dynamic:") {
            self.add_dynamic(name);
            return true;
        }
        if let Some(name) = strip_prefix(data, "unregister_terrain:") {
            self.terrain.remove(&name);
            return true;
        }
        if let Some(name) = strip_prefix(data, "unregister_dynamic_outline:") {
            self.unregister_dynamic_outline(name.as_str());
            return true;
        }
        if let Some(name) = strip_prefix(data, "remove_group:") {
            self.groups.remove(&name);
            return true;
        }
        if let Some(name) = strip_prefix(data, "rebuild:") {
            self.clear_group(name.as_str());
            return true;
        }
        false
    }

    /// Carries out a command. Returns `false`, and changes nothing, if the outline
    /// that it asks for does not exist.
    pub fn on_call(&mut self, call: &TerrainCollisionCall) -> (r: bool)
        requires
            old(self)@.callable(call@),
        ensures
            match old(self)@.called(call@) {
                Some(after) => r && final(self)@ == after,
                None => !r && final(self)@ == old(self)@,
            },
    {
        match call {
            TerrainCollisionCall::EnsureDynamicOutlineForImage {
                name,
                rgba_bytes,
                sprite_dims,
                object_size,
                threshold,
                rdp_epsilon,
            } => self.ensure_dynamic_outline_for_image(
                name.clone(),
                rgba_bytes.as_slice(),
                *sprite_dims,
                *object_size,
                *threshold,
                *rdp_epsilon,
            ),
            TerrainCollisionCall::PinCollisionImage {
                name,
                image,
                object_size,
                threshold,
                rdp_epsilon,
            } => {
                let w = image.width();
                let h = image.height();
                if w == 0 || h == 0 {
                    return false;
                }
                self.ensure_dynamic_outline_for_image(
                    name.clone(),
                    image.as_raw().as_slice(),
                    (w, h),
                    *object_size,
                    *threshold,
                    *rdp_epsilon,
                )
            },
            TerrainCollisionCall::UnregisterDynamicOutline { name } => {
                self.unregister_dynamic_outline(name.as_str());
                true
            },
        }
    }

    /// [`Self::on_call`] where the outline that the command asks for can be
    /// computed; `None`, and nothing is changed, where it cannot.
    pub fn try_call(&mut self, call: &TerrainCollisionCall) -> (r: Option<bool>)
        ensures
            r is None <==> !old(self)@.callable(call@),
            r is None ==> final(self)@ == old(self)@,
            r is Some ==> match old(self)@.called(call@) {
                Some(after) => r == Some(true) && final(self)@ == after,
                None => r == Some(false) && final(self)@ == old(self)@,
            },
    {
        let possible = match call {
            TerrainCollisionCall::EnsureDynamicOutlineForImage {
                name,
                rgba_bytes,
                sprite_dims,
                object_size,
                threshold,
                rdp_epsilon,
            } => self.can_ensure(
                name,
                rgba_bytes.as_slice(),
                *sprite_dims,
                *object_size,
                *threshold,
                *rdp_epsilon,
            ),
            TerrainCollisionCall::PinCollisionImage {
                name,
                image,
                object_size,
                threshold,
                rdp_epsilon,
            } => {
                let w = image.width();
                let h = image.height();
                w == 0 || h == 0 || self.can_ensure(
                    name,
                    image.as_raw().as_slice(),
                    (w, h),
                    *object_size,
                    *threshold,
                    *rdp_epsilon,
                )
            },
            TerrainCollisionCall::UnregisterDynamicOutline { .. } => true,
        };
        if possible {
            Some(self.on_call(call))
        } else {
            None
        }
    }

    // ---- collisions ----

    /// The names of all obstacles.
    pub fn obstacle_names(&self) -> (r: Vec<String>)
        ensures
            scene::texts(r@) == Seq::new(
                self@.obstacles().len(),
                |i: int| self@.obstacles()[i].0,
            ),
    {
        let mut r: Vec<String> = Vec::new();
        let ghost terrain = self.terrain@;
        let ghost groups = self.groups@;
        for i in 0..self.terrain.entries.len()
            invariant
                terrain == self.terrain@,
                scene::texts(r@) == first_of(terrain.take(i as int)),
        {
            let ghost before = r@;
            r.push(self.terrain.entries[i].0.clone());
            assert(scene::texts(r@) =~= scene::texts(before).push(terrain[i as int].0));
            assert(scene::texts(r@) =~= first_of(terrain.take(i + 1)));
        }
        assert(terrain.take(terrain.len() as int) =~= terrain);
        assert(terrain + model::members_of(groups.take(0)) =~= terrain);
        for g in 0..self.groups.entries.len()
            invariant
                terrain == self.terrain@,
                groups == self.groups@,
                scene::texts(r@) == first_of(terrain + model::members_of(groups.take(g as int))),
        {
            let ghost so_far = terrain + model::members_of(groups.take(g as int));
            let ghost all = groups[g as int].1;
            let members = &self.groups.entries[g].1.members;
            assert(so_far + all.take(0) =~= so_far);
            for m in 0..members.len()
                invariant
                    all.len() == members@.len(),
                    forall|j: int| 0 <= j < all.len() ==> #[trigger] all[j] == members@[j]@,
                    scene::texts(r@) == first_of(so_far + all.take(m as int)),
            {
                assert(all[m as int] == members@[m as int]@);
                let ghost before = r@;
                r.push(members[m].object_name.clone());
                assert(scene::texts(r@) =~= scene::texts(before).push(all[m as int].0));
                assert(scene::texts(r@) =~= first_of(so_far + all.take(m + 1)));
            }
            assert(all.take(all.len() as int) =~= all);
            assert(groups.take(g + 1).drop_last() =~= groups.take(g as int));
            assert(so_far + all =~= terrain + model::members_of(groups.take(g + 1)));
        }
        assert(groups.take(groups.len() as int) =~= groups);
        r
    }

    fn is_obstacle(&self, name: &String) -> (r: bool)
        ensures
            r == names::holds(self@.obstacles(), name@),
    {
        let ghost terrain = self.terrain@;
        let ghost groups = self.groups@;
        proof {
            names::lemma_holds_either(terrain, model::members_of(groups), name@);
        }
        if self.terrain.contains(name) {
            return true;
        }
        for g in 0..self.groups.entries.len()
            invariant
                terrain == self.terrain@,
                groups == self.groups@,
                !names::holds(model::members_of(groups.take(g as int)), name@),
        {
            let ghost so_far = model::members_of(groups.take(g as int));
            let ghost all = groups[g as int].1;
            assert(groups.take(g + 1).drop_last() =~= groups.take(g as int));
            proof {
                names::lemma_holds_either(so_far, all, name@);
                names::lemma_holds(all, name@);
                if names::holds(all, name@) {
                    model::lemma_members_of(groups, g as int, name@);
                }
                names::lemma_holds_either(terrain, model::members_of(groups), name@);
            }
            let members = &self.groups.entries[g].1.members;
            for m in 0..members.len()
                invariant
                    all == groups[g as int].1,
                    g < groups.len(),
                    groups == self.groups@,
                    terrain == self.terrain@,
                    names::holds(all, name@) ==> names::holds(self@.obstacles(), name@),
                    all.len() == members@.len(),
                    forall|j: int| 0 <= j < all.len() ==> #[trigger] all[j] == members@[j]@,
                    forall|j: int| 0 <= j < m ==> (#[trigger] all[j]).0 != name@,
            {
                assert(all[m as int] == members@[m as int]@);
                if members[m].object_name == *name {
                    proof {
                        names::lemma_holds(all, name@);
                    }
                    return true;
                }
            }
        }
        assert(groups.take(groups.len() as int) =~= groups);
        false
    }

    fn is_explicit(&self, name: &String) -> (r: bool)
        ensures
            r == self@.explicit_dynamic.contains(name@),
    {
        for i in 0..self.explicit_dynamic.len()
            invariant
                forall|j: int| 0 <= j < i ==> #[trigger] self@.explicit_dynamic[j] != name@,
        {
            if self.explicit_dynamic[i] == *name {
                assert(self@.explicit_dynamic[i as int] == name@);
                return true;
            }
        }
        false
    }

    fn push_on(&self, name: &String, object: GameObject, scene: &Scene) -> (r: Vec2)
        ensures
            r == self@.push_on(name@, object, scene@.objects),
    {
        let own = self.dynamic_outlines.get(name);
        let ghost own_view = outline_view(own);
        let ghost objects = scene@.objects;
        let ghost terrain = self.terrain@;
        let ghost groups = self.groups@;
        let ghost zero = Vec2::spec_zero();
        let mut push = Vec2::zero();
        assert(terrain.take(0) =~= Seq::<(Seq<char>, OutlineView)>::empty());
        for i in 0..self.terrain.entries.len()
            invariant
                terrain == self.terrain@,
                objects == scene@.objects,
                own_view == outline_view(own),
                zero == Vec2::spec_zero(),
                push == model::pushed_by(
                    object,
                    own_view,
                    objects,
                    terrain.take(i as int),
                    zero,
                ),
        {
            let entry = &self.terrain.entries[i];
            assert(terrain.take(i + 1).drop_last() =~= terrain.take(i as int));
            assert(terrain.take(i + 1).last() == (entry.0@, entry.1@));
            push = push_once(object, own, scene, &entry.0, &entry.1, push);
        }
        assert(terrain.take(terrain.len() as int) =~= terrain);
        let ghost start = push;
        assert(groups.take(0) =~= Seq::<(Seq<char>, Seq<(Seq<char>, OutlineView)>)>::empty());
        for g in 0..self.groups.entries.len()
            invariant
                groups == self.groups@,
                objects == scene@.objects,
                own_view == outline_view(own),
                push == model::pushed_by_groups(
                    object,
                    own_view,
                    objects,
                    groups.take(g as int),
                    start,
                ),
        {
            let group = &self.groups.entries[g].1;
            assert(groups.take(g + 1).drop_last() =~= groups.take(g as int));
            assert(groups.take(g + 1).last().1 == group@);
            if let Some(v) = push_of_group(object, own, scene, group) {
                push = push.add(v);
            }
        }
        assert(groups.take(groups.len() as int) =~= groups);
        push
    }

    /// What is to be changed of an object of a scene to take it out of the
    /// obstacles, if anything.
    pub fn correction(&self, name: &String, scene: &Scene) -> (r: Option<Correction>)
        ensures
            match r {
                Some(c) => self@.correction(name@, scene@.objects) == Some(c@),
                None => self@.correction(name@, scene@.objects) is None,
            },
    {
        if self.is_obstacle(name) {
            return None;
        }
        let object = match scene.objects.get(name) {
            Some(o) => *o,
            None => {
                return None;
            },
        };
        if object.is_platform && !self.is_explicit(name) {
            return None;
        }
        let push = self.push_on(name, object, scene);
        let least = F32 { bits: model::NO_PUSH };
        if least.lt(push.length_sq()) {
            let c = Correction {
                name: name.clone(),
                pos_delta: push,
                mom_delta: cancelled_momentum(push, object.momentum, self.restitution),
            };
            Some(c)
        } else {
            None
        }
    }

    /// Takes the objects of a scene out of the obstacles. What is to be changed is
    /// found for all objects before any is changed.
    pub fn on_post_update(&self, scene: &mut Scene)
        ensures
            final(scene)@ == self@.updated(old(scene)@),
    {
        let ghost before = scene@;
        let mut corrections: Vec<Correction> = Vec::new();
        assert(before.names.take(0) =~= Seq::<Seq<char>>::empty());
        for i in 0..scene.names.len()
            invariant
                before == scene@,
                changes(corrections@) == self@.corrections(
                    before.names.take(i as int),
                    before.objects,
                ),
        {
            let ghost so_far = corrections@;
            assert(before.names.take(i + 1).drop_last() =~= before.names.take(i as int));
            assert(before.names.take(i + 1).last() == scene.names@[i as int]@);
            if let Some(c) = self.correction(&scene.names[i], scene) {
                corrections.push(c);
                assert(changes(corrections@) =~= changes(so_far).push(c@));
            }
        }
        assert(before.names.take(before.names.len() as int) =~= before.names);
        let ghost all = changes(corrections@);
        assert(all.take(0) =~= Seq::<CorrectionView>::empty());
        for i in 0..corrections.len()
            invariant
                all == changes(corrections@),
                scene@.names == before.names,
                scene@.objects == model::corrected(before.objects, all.take(i as int)),
        {
            let c = &corrections[i];
            assert(all.take(i + 1).drop_last() =~= all.take(i as int));
            assert(all.take(i + 1).last() == c@);
            let found = match scene.objects.get(&c.name) {
                Some(o) => Some(*o),
                None => None,
            };
            if let Some(object) = found {
                let after = GameObject {
                    position: object.position.add(c.pos_delta),
                    size: object.size,
                    rotation: object.rotation,
                    momentum: object.momentum.sub(c.mom_delta),
                    is_platform: object.is_platform,
                };
                assert(after == model::moved(object, c@));
                scene.objects.insert(c.name.clone(), after);
            }
        }
        assert(all.take(all.len() as int) =~= all);
    }

    /// The name of the plugin.
    pub fn name(&self) -> (r: &str)
        ensures
            r@ == "terrain_collision"@,
    {
        "terrain_collision"
    }
}

impl Default for TerrainCollisionPlugin {
    fn default() -> (r: Self)
        ensures
            r@ == PluginView::initial(),
    {
        Self::new()
    }
}

pub open spec fn changes(corrections: Seq<Correction>) -> Seq<CorrectionView> {
    Seq::new(corrections.len(), |i: int| corrections[i]@)
}

spec fn outline_view(outline: Option<&CollisionOutline>) -> Option<OutlineView> {
    match outline {
        Some(o) => Some(o@),
        None => None,
    }
}

/// Adds the push of one obstacle on an object.
fn push_once(
    object: GameObject,
    own: Option<&CollisionOutline>,
    scene: &Scene,
    name: &String,
    outline: &CollisionOutline,
    before: Vec2,
) -> (r: Vec2)
    ensures
        r == model::pushed_once(
            object,
            outline_view(own),
            scene@.objects,
            (name@, outline@),
            before,
        ),
{
    let obstacle = match scene.objects.get(name) {
        Some(o) => *o,
        None => {
            return before;
        },
    };
    let push = match own {
        Some(own) => sat::sat_outline_vs_outline(
            own,
            object.position,
            object.rotation,
            outline,
            obstacle.position,
            obstacle.rotation,
        ),
        None => match sat::sat_aabb_vs_outline(
            object.position,
            object.size,
            obstacle.position,
            outline,
            obstacle.rotation,
        ) {
            Some(c) => Some(c.push()),
            None => None,
        },
    };
    match push {
        Some(v) => before.add(v),
        None => before,
    }
}

/// The hulls of each member of a group, in world coordinates; none for a member
/// that is not in the scene.
fn hulls_of_members(scene: &Scene, group: &CollisionGroup) -> (r: Vec<Vec<Vec<Vec2>>>)
    ensures
        hulls_are(r@, scene@.objects, group@),
{
    let mut all: Vec<Vec<Vec<Vec2>>> = Vec::new();
    for m in 0..group.members.len()
        invariant
            all@.len() == m,
            forall|j: int|
                0 <= j < m ==> polygon::corners((#[trigger] all@[j])@) == model::member_hulls(
                    scene@.objects,
                    group@[j],
                ),
    {
        let member = &group.members[m];
        assert(group@[m as int] == (member.object_name@, member.outline@));
        let hulls = match scene.objects.get(&member.object_name) {
            Some(o) => member.outline.world_hulls(o.position, o.rotation),
            None => Vec::new(),
        };
        assert(polygon::corners(hulls@) =~= model::member_hulls(scene@.objects, group@[m as int]));
        all.push(hulls);
    }
    all
}

spec fn hulls_are(
    all: Seq<Vec<Vec<Vec2>>>,
    objects: Seq<(Seq<char>, GameObject)>,
    members: Seq<(Seq<char>, OutlineView)>,
) -> bool {
    &&& all.len() == members.len()
    &&& forall|j: int|
        0 <= j < members.len() ==> polygon::corners((#[trigger] all[j])@) == model::member_hulls(
            objects,
            members[j],
        )
}

/// The polygons that an object collides with.
fn shapes_of(object: GameObject, own: Option<&CollisionOutline>) -> (r: Vec<Vec<Vec2>>)
    ensures
        polygon::corners(r@) == model::shapes(object, outline_view(own)),
{
    match own {
        Some(own) => own.world_hulls(object.position, object.rotation),
        None => {
            let mut r: Vec<Vec<Vec2>> = Vec::new();
            r.push(sat::aabb_vertices(object.position, object.size));
            assert(polygon::corners(r@) =~= model::shapes(object, None));
            r
        },
    }
}

/// The push that takes one polygon away from hulls, if they overlap.
fn push_of_shape(boxed: bool, poly: &[Vec2], hulls: &Vec<Vec<Vec2>>) -> (r: Option<Vec2>)
    ensures
        r == model::shape_push(boxed, poly@, polygon::corners(hulls@)),
{
    if boxed {
        match sat::find_least_contact(poly, hulls) {
            Some(c) => Some(c.push()),
            None => None,
        }
    } else {
        sat::push_row(None, poly, hulls)
    }
}

/// Of the pushes of two members, which comes first.
fn comes_first(a: Vec2, j: usize, b: Vec2, m: usize) -> (r: bool)
    ensures
        r == model::outranks(a, j as int, b, m as int),
{
    let x: u32 = a.length_sq().to_bits();
    let y: u32 = b.length_sq().to_bits();
    x > y || (x == y && j < m)
}

/// Whether there is no need of the push of the member `m` on the polygon `i`.
fn is_needless(
    object: GameObject,
    own: Option<&CollisionOutline>,
    i: usize,
    hulls: &Vec<Vec<Vec2>>,
    pushes: &Vec<Option<Vec2>>,
    m: usize,
    Ghost(objects): Ghost<Seq<(Seq<char>, GameObject)>>,
    Ghost(members): Ghost<Seq<(Seq<char>, OutlineView)>>,
) -> (r: bool)
    requires
        i < model::shapes(object, outline_view(own)).len(),
        m < members.len(),
        polygon::corners(hulls@) == model::member_hulls(objects, members[m as int]),
        pushes_are(pushes@, object, outline_view(own), i as int, objects, members),
    ensures
        r == model::needless(object, outline_view(own), i as int, objects, members, m as int),
{
    let ghost own_view = outline_view(own);
    let push = match pushes[m] {
        Some(v) => v,
        None => {
            assert(forall|j: int|
                0 <= j < members.len() ==> !#[trigger] model::replaces(
                    object,
                    own_view,
                    i as int,
                    objects,
                    members,
                    j,
                    m as int,
                ));
            return false;
        },
    };
    for j in 0..pushes.len()
        invariant
            own_view == outline_view(own),
            i < model::shapes(object, own_view).len(),
            m < members.len(),
            polygon::corners(hulls@) == model::member_hulls(objects, members[m as int]),
            pushes_are(pushes@, object, own_view, i as int, objects, members),
            pushes@[m as int] == Some(push),
            forall|k: int|
                0 <= k < j ==> !#[trigger] model::replaces(
                    object,
                    own_view,
                    i as int,
                    objects,
                    members,
                    k,
                    m as int,
                ),
    {
        if let Some(other) = pushes[j] {
            assert(pushes@[j as int] == Some(other));
            if comes_first(other, j, push, m) {
                let same = other.x.to_bits() == push.x.to_bits() && other.y.to_bits()
                    == push.y.to_bits();
                let moved = GameObject {
                    position: object.position.add(other),
                    size: object.size,
                    rotation: object.rotation,
                    momentum: object.momentum,
                    is_platform: object.is_platform,
                };
                assert(moved == model::displaced(object, other));
                let shapes = shapes_of(moved, own);
                assert(model::shapes(moved, own_view).len() == model::shapes(
                    object,
                    own_view,
                ).len());
                assert(shapes@.len() == polygon::corners(shapes@).len());
                if same || push_of_shape(own.is_none(), shapes[i].as_slice(), hulls).is_none() {
                    assert(model::replaces(
                        object,
                        own_view,
                        i as int,
                        objects,
                        members,
                        j as int,
                        m as int,
                    ));
                    return true;
                }
            }
        }
    }
    false
}

spec fn pushes_are(
    pushes: Seq<Option<Vec2>>,
    object: GameObject,
    own: Option<OutlineView>,
    i: int,
    objects: Seq<(Seq<char>, GameObject)>,
    members: Seq<(Seq<char>, OutlineView)>,
) -> bool {
    &&& pushes.len() == members.len()
    &&& forall|j: int|
        0 <= j < members.len() ==> #[trigger] pushes[j] == model::member_push(
            object,
            own,
            i,
            objects,
            members[j],
        )
}

/// The sum of two pushes, each of which may not be there.
fn join(a: Option<Vec2>, b: Option<Vec2>) -> (r: Option<Vec2>)
    ensures
        r == model::joined(a, b),
{
    match (a, b) {
        (a, None) => a,
        (None, b) => b,
        (Some(a), Some(b)) => Some(a.add(b)),
    }
}

/// The push of a group on the polygon `i` of an object.
fn push_of_part(
    object: GameObject,
    own: Option<&CollisionOutline>,
    i: usize,
    poly: &[Vec2],
    all: &Vec<Vec<Vec<Vec2>>>,
    Ghost(objects): Ghost<Seq<(Seq<char>, GameObject)>>,
    Ghost(members): Ghost<Seq<(Seq<char>, OutlineView)>>,
) -> (r: Option<Vec2>)
    requires
        i < model::shapes(object, outline_view(own)).len(),
        poly@ == model::shapes(object, outline_view(own))[i as int],
        hulls_are(all@, objects, members),
    ensures
        r == model::part_push(
            object,
            outline_view(own),
            i as int,
            objects,
            members,
            members.len() as int,
        ),
{
    let ghost own_view = outline_view(own);
    let mut pushes: Vec<Option<Vec2>> = Vec::new();
    for j in 0..all.len()
        invariant
            own_view == outline_view(own),
            poly@ == model::shapes(object, own_view)[i as int],
            hulls_are(all@, objects, members),
            pushes@.len() == j,
            forall|k: int|
                0 <= k < j ==> #[trigger] pushes@[k] == model::member_push(
                    object,
                    own_view,
                    i as int,
                    objects,
                    members[k],
                ),
    {
        pushes.push(push_of_shape(own.is_none(), poly, &all[j]));
        assert(polygon::corners(all@[j as int]@) == model::member_hulls(
            objects,
            members[j as int],
        ));
    }
    let mut total: Option<Vec2> = None;
    for m in 0..all.len()
        invariant
            own_view == outline_view(own),
            i < model::shapes(object, own_view).len(),
            hulls_are(all@, objects, members),
            pushes_are(pushes@, object, own_view, i as int, objects, members),
            total == model::part_push(object, own_view, i as int, objects, members, m as int),
    {
        assert(polygon::corners(all@[m as int]@) == model::member_hulls(
            objects,
            members[m as int],
        ));
        assert(pushes@[m as int] == model::member_push(
            object,
            own_view,
            i as int,
            objects,
            members[m as int],
        ));
        if !is_needless(object, own, i, &all[m], &pushes, m, Ghost(objects), Ghost(members)) {
            total = join(total, pushes[m]);
        }
    }
    total
}

/// The push that takes an object away from a group, whose members are one mesh.
fn push_of_group(
    object: GameObject,
    own: Option<&CollisionOutline>,
    scene: &Scene,
    group: &CollisionGroup,
) -> (r: Option<Vec2>)
    ensures
        r == model::group_push(object, outline_view(own), scene@.objects, group@),
{
    let ghost own_view = outline_view(own);
    let ghost objects = scene@.objects;
    let ghost members = group@;
    let all = hulls_of_members(scene, group);
    let shapes = shapes_of(object, own);
    let mut total: Option<Vec2> = None;
    for i in 0..shapes.len()
        invariant
            own_view == outline_view(own),
            polygon::corners(shapes@) == model::shapes(object, own_view),
            hulls_are(all@, objects, members),
            total == model::parts_push(object, own_view, objects, members, i as int),
    {
        assert(polygon::corners(shapes@)[i as int] == shapes@[i as int]@);
        let part = push_of_part(
            object,
            own,
            i,
            shapes[i].as_slice(),
            &all,
            Ghost(objects),
            Ghost(members),
        );
        total = join(total, part);
    }
    assert(polygon::corners(shapes@).len() == shapes@.len());
    total
}

/// The momentum to take from an object that is pushed.
fn cancelled_momentum(push: Vec2, momentum: Vec2, restitution: F32) -> (r: Vec2)
    ensures
        r == model::cancelled(push, momentum, restitution),
{
    let length = push.length();
    let normal = Vec2 { x: push.x.div(length), y: push.y.div(length) };
    let along = momentum.dot(normal);
    if along.lt(F32::zero()) {
        let one = F32 { bits: simplify::ONE };
        normal.scale(along.mul(one.add(restitution)))
    } else {
        Vec2::zero()
    }
}

/// The names in a list.
pub open spec fn first_of(list: Seq<(Seq<char>, OutlineView)>) -> Seq<Seq<char>> {
    Seq::new(list.len(), |i: int| list[i].0)
}

/// What follows a prefix, if the text has it.
fn strip_prefix(data: &str, prefix: &str) -> (r: Option<String>)
    ensures
        match r {
            Some(rest) => model::stripped(data@, prefix@) == Some(rest@),
            None => model::stripped(data@, prefix@) is None,
        },
{
    let n: usize = prefix.unicode_len();
    let len: usize = data.unicode_len();
    if len < n {
        return None;
    }
    let start = data.substring_char(0, n);
    assert(start@ =~= data@.take(n as int));
    if start.to_owned() == prefix.to_owned() {
        let rest = data.substring_char(n, len);
        assert(rest@ =~= data@.skip(n as int));
        Some(rest.to_owned())
    } else {
        None
    }
}

/// The corners of polygons, as points.
pub open spec fn points(hulls: Seq<Vec<(F32, F32)>>) -> Seq<Seq<Vec2>> {
    Seq::new(
        hulls.len(),
        |i: int|
            Seq::new(hulls[i]@.len(), |j: int| Vec2 { x: hulls[i]@[j].0, y: hulls[i]@[j].1 }),
    )
}

fn tuples(hull: &Vec<Vec2>) -> (r: Vec<(F32, F32)>)
    ensures
        Seq::new(r@.len(), |j: int| Vec2 { x: r@[j].0, y: r@[j].1 }) == hull@,
{
    let mut r: Vec<(F32, F32)> = Vec::with_capacity(hull.len());
    for i in 0..hull.len()
        invariant
            r@.len() == i,
            forall|j: int| 0 <= j < i ==> (#[trigger] r@[j]).0 == hull@[j].x && r@[j].1
                == hull@[j].y,
    {
        let v = hull[i];
        r.push((v.x, v.y));
    }
    assert(Seq::new(r@.len(), |j: int| Vec2 { x: r@[j].0, y: r@[j].1 }) =~= hull@);
    r
}

} // verus!
