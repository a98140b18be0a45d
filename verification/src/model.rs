//! What the plugin knows, and what becomes of it.

use crate::cache_key;
use crate::float::F32;
use crate::image_source;
use crate::image_source::SharedImage;
use crate::names;
use crate::outline;
use crate::outline::OutlineView;
use crate::sat;
use crate::scene::CorrectionView;
use crate::scene::GameObject;
use crate::scene::SceneView;
use crate::simplify;
use crate::vec2::Vec2;
use vstd::prelude::*;

verus! {

/// 1e-10: a shorter push, squared, is none.
pub const NO_PUSH: u32 = 0x2edb_e6ff;

/// All that an outline depends on.
pub struct Sprite {
    pub bytes: Seq<u8>,
    pub dims: (u32, u32),
    pub size: (F32, F32),
    pub threshold: u8,
    pub epsilon: F32,
}

impl Sprite {
    /// The key under which the outline is cached.
    pub open spec fn key(self) -> u64 {
        cache_key::key(
            self.bytes,
            self.dims.0,
            self.dims.1,
            self.size,
            self.threshold,
            self.epsilon,
        )
    }

    pub open spec fn outline(self) -> Option<OutlineView> {
        outline::outline_of(
            self.bytes,
            self.dims.0,
            self.dims.1,
            self.size,
            self.threshold,
            self.epsilon,
        )
    }

    pub open spec fn computable(self) -> bool {
        outline::computable(
            self.bytes,
            self.dims.0,
            self.dims.1,
            self.threshold,
            self.epsilon,
        )
    }
}

/// The sprite that an image is.
pub open spec fn image_sprite(
    image: SharedImage,
    size: (F32, F32),
    threshold: u8,
    epsilon: F32,
) -> Sprite {
    Sprite {
        bytes: image_source::image_bytes(image),
        dims: (image_source::image_width(image), image_source::image_height(image)),
        size,
        threshold,
        epsilon,
    }
}

/// An image without pixels.
pub open spec fn blank(image: SharedImage) -> bool {
    image_source::image_width(image) == 0 || image_source::image_height(image) == 0
}

/// What a command says.
#[verifier::ext_equal]
pub enum CallView {
    Ensure { name: Seq<char>, sprite: Sprite },
    Pin { name: Seq<char>, image: SharedImage, size: (F32, F32), threshold: u8, epsilon: F32 },
    Unregister { name: Seq<char> },
}

/// What the plugin knows.
#[verifier::ext_equal]
pub struct PluginView {
    pub terrain: Seq<(Seq<char>, OutlineView)>,
    pub dynamic_outlines: Seq<(Seq<char>, OutlineView)>,
    pub active_keys: Seq<(Seq<char>, u64)>,
    pub explicit_dynamic: Seq<Seq<char>>,
    pub groups: Seq<(Seq<char>, Seq<(Seq<char>, OutlineView)>)>,
    pub cache: Map<u64, OutlineView>,
    pub restitution: F32,
}

/// The outlines that can be cached under a key.
pub open spec fn has_key(key: u64, outline: OutlineView) -> bool {
    exists|s: Sprite| #[trigger] s.key() == key && s.outline() == Some(outline)
}

impl PluginView {
    pub open spec fn initial() -> PluginView {
        PluginView {
            terrain: Seq::empty(),
            dynamic_outlines: Seq::empty(),
            active_keys: Seq::empty(),
            explicit_dynamic: Seq::empty(),
            groups: Seq::empty(),
            cache: Map::empty(),
            restitution: F32 { bits: 0 },
        }
    }

    /// No name occurs twice, what is cached are outlines of sprites with that
    /// key, and the dynamic outlines are the cached ones of the active keys.
    pub open spec fn consistent(self) -> bool {
        &&& names::unique(self.terrain)
        &&& names::unique(self.dynamic_outlines)
        &&& names::unique(self.active_keys)
        &&& names::unique(self.groups)
        &&& forall|k: u64| #[trigger] self.cache.contains_key(k) ==> has_key(k, self.cache[k])
        &&& forall|name: Seq<char>|
            #![trigger names::lookup(self.active_keys, name)]
            #![trigger names::lookup(self.dynamic_outlines, name)]
            self.key_matches(name)
    }

    /// A name has an active key if and only if it has a dynamic outline, which is
    /// the cached one with that key.
    pub open spec fn key_matches(self, name: Seq<char>) -> bool {
        match (names::lookup(self.active_keys, name), names::lookup(self.dynamic_outlines, name)) {
            (None, None) => true,
            (Some(k), Some(o)) => self.cache.contains_key(k) && self.cache[k] == o,
            _ => false,
        }
    }

    // ---- outlines ----

    /// The outline for a sprite: the cached one, or a new one.
    pub open spec fn built(self, key: u64, sprite: Sprite) -> Option<OutlineView> {
        if self.cache.contains_key(key) {
            Some(self.cache[key])
        } else {
            sprite.outline()
        }
    }

    /// The outline for a sprite is cached or can be computed.
    pub open spec fn buildable(self, sprite: Sprite) -> bool {
        self.cache.contains_key(sprite.key()) || sprite.computable()
    }

    /// The outline for a sprite is in the cache, if there is one.
    pub open spec fn remembering(self, key: u64, sprite: Sprite) -> PluginView {
        if self.cache.contains_key(key) {
            self
        } else {
            match sprite.outline() {
                Some(o) => PluginView { cache: self.cache.insert(key, o), ..self },
                None => self,
            }
        }
    }

    // ---- registration ----

    pub open spec fn sharing_terrain(self, name: Seq<char>, o: OutlineView) -> PluginView {
        PluginView { terrain: names::with(self.terrain, name, o), ..self }
    }

    /// After the registration of terrain; `None` if there is no outline.
    pub open spec fn with_terrain(self, name: Seq<char>, sprite: Sprite) -> Option<PluginView> {
        match self.built(sprite.key(), sprite) {
            Some(o) => Some(self.remembering(sprite.key(), sprite).sharing_terrain(name, o)),
            None => None,
        }
    }

    /// After the registration of a dynamic outline; `None` if there is none.
    pub open spec fn with_dynamic_outline(self, name: Seq<char>, sprite: Sprite) -> Option<
        PluginView,
    > {
        match self.built(sprite.key(), sprite) {
            Some(o) => Some(
                PluginView {
                    dynamic_outlines: names::with(self.dynamic_outlines, name, o),
                    active_keys: names::with(self.active_keys, name, sprite.key()),
                    ..self.remembering(sprite.key(), sprite)
                },
            ),
            None => None,
        }
    }

    /// After the registration of the outline of an image; `None` if there is none.
    pub open spec fn with_image(
        self,
        name: Seq<char>,
        image: SharedImage,
        size: (F32, F32),
        threshold: u8,
        epsilon: F32,
    ) -> Option<PluginView> {
        if blank(image) {
            None
        } else {
            self.with_dynamic_outline(name, image_sprite(image, size, threshold, epsilon))
        }
    }

    /// The key of a sprite is the active one of a name.
    pub open spec fn up_to_date(self, name: Seq<char>, sprite: Sprite) -> bool {
        names::lookup(self.active_keys, name) == Some(sprite.key())
    }

    /// After making sure of a dynamic outline; `None` if there is none.
    pub open spec fn ensuring_dynamic_outline(self, name: Seq<char>, sprite: Sprite) -> Option<
        PluginView,
    > {
        if self.up_to_date(name, sprite) {
            Some(self)
        } else {
            self.with_dynamic_outline(name, sprite)
        }
    }

    pub open spec fn without_dynamic_outline(self, name: Seq<char>) -> PluginView {
        PluginView {
            dynamic_outlines: names::without(self.dynamic_outlines, name),
            active_keys: names::without(self.active_keys, name),
            ..self
        }
    }

    pub open spec fn with_explicit_dynamic(self, name: Seq<char>) -> PluginView {
        PluginView { explicit_dynamic: self.explicit_dynamic.push(name), ..self }
    }

    /// The members of a group; none if there is no such group.
    pub open spec fn members(self, group: Seq<char>) -> Seq<(Seq<char>, OutlineView)> {
        match names::lookup(self.groups, group) {
            Some(m) => m,
            None => Seq::empty(),
        }
    }

    /// After the registration of a member of a group; `None` if there is no
    /// outline.
    pub open spec fn with_group_member(
        self,
        group: Seq<char>,
        name: Seq<char>,
        sprite: Sprite,
    ) -> Option<PluginView> {
        match self.built(sprite.key(), sprite) {
            Some(o) => Some(
                PluginView {
                    groups: names::with(self.groups, group, self.members(group).push((name, o))),
                    ..self.remembering(sprite.key(), sprite)
                },
            ),
            None => None,
        }
    }

    /// The group has no members, if there is such a group.
    pub open spec fn with_group_cleared(self, group: Seq<char>) -> PluginView {
        if names::holds(self.groups, group) {
            PluginView { groups: names::with(self.groups, group, Seq::empty()), ..self }
        } else {
            self
        }
    }

    pub open spec fn without_terrain(self, name: Seq<char>) -> PluginView {
        PluginView { terrain: names::without(self.terrain, name), ..self }
    }

    pub open spec fn without_group(self, group: Seq<char>) -> PluginView {
        PluginView { groups: names::without(self.groups, group), ..self }
    }

    // ---- actions ----

    /// After an action; `None` if there is no such action.
    pub open spec fn acting(self, data: Seq<char>) -> Option<PluginView> {
        if let Some(name) = stripped(data, "register_dynamic:"@) {
            Some(self.with_explicit_dynamic(name))
        } else if let Some(name) = stripped(data, "unregister_terrain:"@) {
            Some(self.without_terrain(name))
        } else if let Some(name) = stripped(data, "unregister_dynamic_outline:"@) {
            Some(self.without_dynamic_outline(name))
        } else if let Some(name) = stripped(data, "remove_group:"@) {
            Some(self.without_group(name))
        } else if let Some(name) = stripped(data, "rebuild:"@) {
            Some(self.with_group_cleared(name))
        } else {
            None
        }
    }

    // ---- commands ----

    /// After a command; `None` if it has no outline to register.
    pub open spec fn called(self, call: CallView) -> Option<PluginView> {
        match call {
            CallView::Ensure { name, sprite } => self.ensuring_dynamic_outline(name, sprite),
            CallView::Pin { name, image, size, threshold, epsilon } => if blank(image) {
                None
            } else {
                self.ensuring_dynamic_outline(
                    name,
                    image_sprite(image, size, threshold, epsilon),
                )
            },
            CallView::Unregister { name } => Some(self.without_dynamic_outline(name)),
        }
    }

    /// The outline that a command asks for is there, or can be computed.
    pub open spec fn callable(self, call: CallView) -> bool {
        match call {
            CallView::Ensure { name, sprite } => self.up_to_date(name, sprite) || self.buildable(
                sprite,
            ),
            CallView::Pin { name, image, size, threshold, epsilon } => {
                let sprite = image_sprite(image, size, threshold, epsilon);
                blank(image) || self.up_to_date(name, sprite) || self.buildable(sprite)
            },
            CallView::Unregister { name } => true,
        }
    }

    // ---- collisions ----

    /// Everything that objects are kept out of: the terrain, and the members of
    /// all groups.
    pub open spec fn obstacles(self) -> Seq<(Seq<char>, OutlineView)> {
        self.terrain + members_of(self.groups)
    }

    /// An object that is kept out of the obstacles: no obstacle itself, and no
    /// platform unless it was added as dynamic.
    pub open spec fn is_dynamic(self, name: Seq<char>, object: GameObject) -> bool {
        !names::holds(self.obstacles(), name) && (object.is_platform ==> self.explicit_dynamic.contains(
            name,
        ))
    }

    /// The sum of the pushes on an object: one of every terrain, and one of every
    /// group as a whole.
    pub open spec fn push_on(
        self,
        name: Seq<char>,
        object: GameObject,
        objects: Seq<(Seq<char>, GameObject)>,
    ) -> Vec2 {
        let own = names::lookup(self.dynamic_outlines, name);
        pushed_by_groups(
            object,
            own,
            objects,
            self.groups,
            pushed_by(object, own, objects, self.terrain, Vec2::spec_zero()),
        )
    }

    /// What is to be changed of an object, if anything.
    pub open spec fn correction(
        self,
        name: Seq<char>,
        objects: Seq<(Seq<char>, GameObject)>,
    ) -> Option<CorrectionView> {
        match names::lookup(objects, name) {
            Some(object) => {
                let push = self.push_on(name, object, objects);
                if self.is_dynamic(name, object) && (F32 { bits: NO_PUSH }).spec_lt(
                    push.spec_length_sq(),
                ) {
                    Some(
                        CorrectionView {
                            name,
                            pos_delta: push,
                            mom_delta: cancelled(push, object.momentum, self.restitution),
                        },
                    )
                } else {
                    None
                }
            },
            None => None,
        }
    }

    /// What is to be changed of the named objects.
    pub open spec fn corrections(
        self,
        names: Seq<Seq<char>>,
        objects: Seq<(Seq<char>, GameObject)>,
    ) -> Seq<CorrectionView>
        decreases names.len(),
    {
        if names.len() == 0 {
            Seq::empty()
        } else {
            let before = self.corrections(names.drop_last(), objects);
            match self.correction(names.last(), objects) {
                Some(c) => before.push(c),
                None => before,
            }
        }
    }

    /// The scene after all corrections, which are found before any is made.
    pub open spec fn updated(self, scene: SceneView) -> SceneView {
        SceneView {
            objects: corrected(scene.objects, self.corrections(scene.names, scene.objects)),
            ..scene
        }
    }
}

/// What follows a prefix.
pub open spec fn stripped(data: Seq<char>, prefix: Seq<char>) -> Option<Seq<char>> {
    if prefix.len() <= data.len() && data.take(prefix.len() as int) == prefix {
        Some(data.skip(prefix.len() as int))
    } else {
        None
    }
}

/// The members of all groups.
pub open spec fn members_of(groups: Seq<(Seq<char>, Seq<(Seq<char>, OutlineView)>)>) -> Seq<
    (Seq<char>, OutlineView),
>
    decreases groups.len(),
{
    if groups.len() == 0 {
        Seq::empty()
    } else {
        members_of(groups.drop_last()) + groups.last().1
    }
}

/// The members of a group are members of all groups.
pub proof fn lemma_members_of(
    groups: Seq<(Seq<char>, Seq<(Seq<char>, OutlineView)>)>,
    g: int,
    name: Seq<char>,
)
    requires
        0 <= g < groups.len(),
        names::holds(groups[g].1, name),
    ensures
        names::holds(members_of(groups), name),
    decreases groups.len(),
{
    names::lemma_holds_either(members_of(groups.drop_last()), groups.last().1, name);
    if g < groups.len() - 1 {
        lemma_members_of(groups.drop_last(), g, name);
    }
}

/// The push that takes an object away from an obstacle, if they overlap: its
/// outline, if it has one, or else its box.
pub open spec fn push_from(
    object: GameObject,
    own: Option<OutlineView>,
    obstacle: GameObject,
    outline: OutlineView,
) -> Option<Vec2> {
    match own {
        Some(own) => sat::outline_push(
            own,
            object.position,
            object.rotation,
            outline,
            obstacle.position,
            obstacle.rotation,
        ),
        None => match sat::box_contact(
            object.position,
            object.size,
            outline,
            obstacle.position,
            obstacle.rotation,
        ) {
            Some(c) => Some(c.spec_push()),
            None => None,
        },
    }
}

/// The hulls of a member of a group, in world coordinates; none if it is not in
/// the scene.
pub open spec fn member_hulls(
    objects: Seq<(Seq<char>, GameObject)>,
    member: (Seq<char>, OutlineView),
) -> Seq<Seq<Vec2>> {
    match names::lookup(objects, member.0) {
        Some(o) => member.1.placed_hulls(o.position, o.rotation),
        None => Seq::empty(),
    }
}

/// The polygons that an object collides with: those of its outline, if it has
/// one, or else its box.
pub open spec fn shapes(object: GameObject, own: Option<OutlineView>) -> Seq<Seq<Vec2>> {
    match own {
        Some(own) => own.placed_hulls(object.position, object.rotation),
        None => seq![sat::box_corners(object.position, object.size)],
    }
}

/// The push that takes one polygon away from hulls, if they overlap: by the least
/// deep contact for a box, and by the sum of all contacts for a part of an outline.
pub open spec fn shape_push(boxed: bool, poly: Seq<Vec2>, hulls: Seq<Seq<Vec2>>) -> Option<Vec2> {
    if boxed {
        match sat::least_contact(poly, hulls) {
            Some(c) => Some(c.spec_push()),
            None => None,
        }
    } else {
        sat::row_push(None, poly, hulls)
    }
}

/// The push that takes the polygon `i` of an object away from a member of a group,
/// if they overlap.
pub open spec fn member_push(
    object: GameObject,
    own: Option<OutlineView>,
    i: int,
    objects: Seq<(Seq<char>, GameObject)>,
    member: (Seq<char>, OutlineView),
) -> Option<Vec2> {
    shape_push(own is None, shapes(object, own)[i], member_hulls(objects, member))
}

/// An object at another place.
pub open spec fn displaced(object: GameObject, by: Vec2) -> GameObject {
    GameObject { position: object.position.spec_add(by), ..object }
}

/// Of the pushes of the members `j` and `m`, the longer one comes first, or the one
/// of the earlier member. The bits of squared lengths are ordered as the lengths
/// are.
pub open spec fn outranks(a: Vec2, j: int, b: Vec2, m: int) -> bool {
    let x = a.spec_length_sq().bits;
    let y = b.spec_length_sq().bits;
    x > y || (x == y && j < m)
}

/// The push of the member `j` comes before that of the member `m`, and there is no
/// need of the latter then: it is the same, or the former takes the polygon out of
/// `m` as well.
pub open spec fn replaces(
    object: GameObject,
    own: Option<OutlineView>,
    i: int,
    objects: Seq<(Seq<char>, GameObject)>,
    members: Seq<(Seq<char>, OutlineView)>,
    j: int,
    m: int,
) -> bool {
    match (
        member_push(object, own, i, objects, members[j]),
        member_push(object, own, i, objects, members[m]),
    ) {
        (Some(a), Some(b)) => outranks(a, j, b, m) && (a == b || member_push(
            displaced(object, a),
            own,
            i,
            objects,
            members[m],
        ) is None),
        _ => false,
    }
}

/// There is no need of the push of the member `m`, because of another member.
pub open spec fn needless(
    object: GameObject,
    own: Option<OutlineView>,
    i: int,
    objects: Seq<(Seq<char>, GameObject)>,
    members: Seq<(Seq<char>, OutlineView)>,
    m: int,
) -> bool {
    exists|j: int|
        0 <= j < members.len() && #[trigger] replaces(object, own, i, objects, members, j, m)
}

/// The sum of two pushes, each of which may not be there.
pub open spec fn joined(a: Option<Vec2>, b: Option<Vec2>) -> Option<Vec2> {
    match (a, b) {
        (a, None) => a,
        (None, b) => b,
        (Some(a), Some(b)) => Some(a.spec_add(b)),
    }
}

/// The push of the first `k` members of a group on the polygon `i` of an object:
/// the sum of those of their pushes that are needed.
pub open spec fn part_push(
    object: GameObject,
    own: Option<OutlineView>,
    i: int,
    objects: Seq<(Seq<char>, GameObject)>,
    members: Seq<(Seq<char>, OutlineView)>,
    k: int,
) -> Option<Vec2>
    decreases k,
{
    if k <= 0 {
        None
    } else {
        joined(
            part_push(object, own, i, objects, members, k - 1),
            if needless(object, own, i, objects, members, k - 1) {
                None
            } else {
                member_push(object, own, i, objects, members[k - 1])
            },
        )
    }
}

/// The push of a group on the first `n` polygons of an object.
pub open spec fn parts_push(
    object: GameObject,
    own: Option<OutlineView>,
    objects: Seq<(Seq<char>, GameObject)>,
    members: Seq<(Seq<char>, OutlineView)>,
    n: int,
) -> Option<Vec2>
    decreases n,
{
    if n <= 0 {
        None
    } else {
        joined(
            parts_push(object, own, objects, members, n - 1),
            part_push(object, own, n - 1, objects, members, members.len() as int),
        )
    }
}

/// One push for the whole group. Its members are one mesh: what one of them pushes
/// an object by, no other one pushes it by once more.
pub open spec fn group_push(
    object: GameObject,
    own: Option<OutlineView>,
    objects: Seq<(Seq<char>, GameObject)>,
    members: Seq<(Seq<char>, OutlineView)>,
) -> Option<Vec2> {
    parts_push(object, own, objects, members, shapes(object, own).len() as int)
}

/// The sum of the pushes of groups on an object.
pub open spec fn pushed_by_groups(
    object: GameObject,
    own: Option<OutlineView>,
    objects: Seq<(Seq<char>, GameObject)>,
    groups: Seq<(Seq<char>, Seq<(Seq<char>, OutlineView)>)>,
    start: Vec2,
) -> Vec2
    decreases groups.len(),
{
    if groups.len() == 0 {
        start
    } else {
        let before = pushed_by_groups(object, own, objects, groups.drop_last(), start);
        match group_push(object, own, objects, groups.last().1) {
            Some(v) => before.spec_add(v),
            None => before,
        }
    }
}

/// What one obstacle adds to the push on an object. One that is not in the scene
/// adds nothing.
pub open spec fn pushed_once(
    object: GameObject,
    own: Option<OutlineView>,
    objects: Seq<(Seq<char>, GameObject)>,
    obstacle: (Seq<char>, OutlineView),
    before: Vec2,
) -> Vec2 {
    match names::lookup(objects, obstacle.0) {
        Some(o) => match push_from(object, own, o, obstacle.1) {
            Some(v) => before.spec_add(v),
            None => before,
        },
        None => before,
    }
}

/// The sum of the pushes of single obstacles on an object.
pub open spec fn pushed_by(
    object: GameObject,
    own: Option<OutlineView>,
    objects: Seq<(Seq<char>, GameObject)>,
    obstacles: Seq<(Seq<char>, OutlineView)>,
    start: Vec2,
) -> Vec2
    decreases obstacles.len(),
{
    if obstacles.len() == 0 {
        start
    } else {
        pushed_once(
            object,
            own,
            objects,
            obstacles.last(),
            pushed_by(object, own, objects, obstacles.drop_last(), start),
        )
    }
}

/// The momentum to take from an object that is pushed: the part against the
/// push, and `restitution` times as much again. An object that moves with the
/// push keeps its momentum.
pub open spec fn cancelled(push: Vec2, momentum: Vec2, restitution: F32) -> Vec2 {
    let length = push.spec_length();
    let normal = Vec2 { x: push.x.spec_div(length), y: push.y.spec_div(length) };
    let along = momentum.spec_dot(normal);
    if along.spec_lt(F32 { bits: 0 }) {
        let one = F32 { bits: simplify::ONE };
        normal.spec_scale(along.spec_mul(one.spec_add(restitution)))
    } else {
        Vec2::spec_zero()
    }
}

/// An object after a correction.
pub open spec fn moved(object: GameObject, c: CorrectionView) -> GameObject {
    GameObject {
        position: object.position.spec_add(c.pos_delta),
        momentum: object.momentum.spec_sub(c.mom_delta),
        ..object
    }
}

/// The objects after a correction.
pub open spec fn corrected_once(
    objects: Seq<(Seq<char>, GameObject)>,
    c: CorrectionView,
) -> Seq<(Seq<char>, GameObject)> {
    match names::lookup(objects, c.name) {
        Some(object) => names::with(objects, c.name, moved(object, c)),
        None => objects,
    }
}

/// The objects after corrections, one after the other.
pub open spec fn corrected(
    objects: Seq<(Seq<char>, GameObject)>,
    corrections: Seq<CorrectionView>,
) -> Seq<(Seq<char>, GameObject)>
    decreases corrections.len(),
{
    if corrections.len() == 0 {
        objects
    } else {
        corrected_once(corrected(objects, corrections.drop_last()), corrections.last())
    }
}

} // verus!
