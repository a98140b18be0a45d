//! Laws on the operations of the plugin: what a call returns and what it leaves
//! behind, told from its arguments.

use crate::cache_key;
use crate::contact_laws;
use crate::float::F32;
use crate::image_source;
use crate::image_source::SharedImage;
use crate::laws;
use crate::model;
use crate::model::PluginView;
use crate::momentum_laws;
use crate::names;
use crate::outline;
use crate::outline::CollisionOutline;
use crate::outline::OutlineView;
use crate::outline::Rotation;
use crate::plugin;
use crate::plugin::TerrainCollisionCall;
use crate::plugin::TerrainCollisionPlugin;
use crate::push_laws;
use crate::sat;
use crate::sat::Direction;
use crate::scene;
use crate::scene::Correction;
use crate::scene::GameObject;
use crate::scene::Scene;
use crate::simplify::ONE;
use crate::vec2::Vec2;
use vstd::prelude::*;

verus! {

// ---- outlines and the cache ----

/// The outline that is used for a sprite: the one in the cache with its key, or
/// else its own.
pub open spec fn used(
    p: PluginView,
    bytes: Seq<u8>,
    dims: (u32, u32),
    size: (F32, F32),
    threshold: u8,
    epsilon: F32,
) -> Option<OutlineView> {
    let key = cache_key::key(bytes, dims.0, dims.1, size, threshold, epsilon);
    if p.cache.contains_key(key) {
        Some(p.cache[key])
    } else {
        outline::outline_of(bytes, dims.0, dims.1, size, threshold, epsilon)
    }
}

/// The cache with the outline of a sprite under its key, if the sprite has one;
/// what is in the cache already stays as it is.
pub open spec fn cached(
    p: PluginView,
    bytes: Seq<u8>,
    dims: (u32, u32),
    size: (F32, F32),
    threshold: u8,
    epsilon: F32,
) -> Map<u64, OutlineView> {
    let key = cache_key::key(bytes, dims.0, dims.1, size, threshold, epsilon);
    match outline::outline_of(bytes, dims.0, dims.1, size, threshold, epsilon) {
        Some(o) if !p.cache.contains_key(key) => p.cache.insert(key, o),
        _ => p.cache,
    }
}

/// `after` has `value` for a name, and is like `before` for all others.
pub open spec fn sets<T>(
    after: Seq<(Seq<char>, T)>,
    before: Seq<(Seq<char>, T)>,
    name: Seq<char>,
    value: Option<T>,
) -> bool {
    forall|other: Seq<char>| #[trigger]
        names::lookup(after, other) == if other == name {
            value
        } else {
            names::lookup(before, other)
        }
}

/// Only the terrain and the cache may differ.
pub open spec fn same_but_terrain(a: PluginView, b: PluginView) -> bool {
    a == (PluginView { terrain: a.terrain, cache: a.cache, ..b })
}

/// Only the outlines and keys of dynamic objects and the cache may differ.
pub open spec fn same_but_outlines(a: PluginView, b: PluginView) -> bool {
    a == (PluginView {
        dynamic_outlines: a.dynamic_outlines,
        active_keys: a.active_keys,
        cache: a.cache,
        ..b
    })
}

/// Only the groups and the cache may differ.
pub open spec fn same_but_groups(a: PluginView, b: PluginView) -> bool {
    a == (PluginView { groups: a.groups, cache: a.cache, ..b })
}

proof fn lemma_set<T>(list: Seq<(Seq<char>, T)>, name: Seq<char>, value: T)
    ensures
        sets(names::with(list, name, value), list, name, Some(value)),
{
    assert forall|other: Seq<char>| #[trigger]
        names::lookup(names::with(list, name, value), other) == (if other == name {
            Some(value)
        } else {
            names::lookup(list, other)
        }) by {
        names::law_insert_then_lookup(list, name, value, other);
    }
}

proof fn lemma_unset<T>(list: Seq<(Seq<char>, T)>, name: Seq<char>)
    requires
        names::unique(list),
    ensures
        sets(names::without(list, name), list, name, None),
{
    assert forall|other: Seq<char>| #[trigger]
        names::lookup(names::without(list, name), other) == (if other == name {
            None
        } else {
            names::lookup(list, other)
        }) by {
        names::law_remove_then_lookup(list, name, other);
    }
}

// ---- registration ----

/// Registering terrain gives it the outline of its sprite and caches that outline,
/// or is refused, and changes nothing, where there is none.
pub proof fn law_terrain_gets_its_outline(
    p: &mut TerrainCollisionPlugin,
    name: String,
    bytes: &[u8],
    dims: (u32, u32),
    size: (F32, F32),
    threshold: u8,
    epsilon: F32,
    r: bool,
)
    requires
        call_ensures(
            TerrainCollisionPlugin::register_terrain,
            (p, name, bytes, dims, size, threshold, epsilon),
            r,
        ),
    ensures
        r <==> used(old(p)@, bytes@, dims, size, threshold, epsilon) is Some,
        r ==> sets(
            final(p)@.terrain,
            old(p)@.terrain,
            name@,
            used(old(p)@, bytes@, dims, size, threshold, epsilon),
        ) && final(p)@.cache == cached(old(p)@, bytes@, dims, size, threshold, epsilon)
            && same_but_terrain(final(p)@, old(p)@),
        !r ==> final(p)@ == old(p)@,
{
    if let Some(o) = used(old(p)@, bytes@, dims, size, threshold, epsilon) {
        lemma_set(old(p)@.terrain, name@, o);
    }
}

/// Registering terrain with a shared outline gives it that outline, whatever it had
/// before.
pub proof fn law_shared_terrain_gets_the_outline(
    p: &mut TerrainCollisionPlugin,
    name: String,
    outline: CollisionOutline,
)
    requires
        call_ensures(TerrainCollisionPlugin::register_shared_terrain, (p, name, outline), ()),
    ensures
        sets(final(p)@.terrain, old(p)@.terrain, name@, Some(outline@)),
        final(p)@.cache == old(p)@.cache,
        same_but_terrain(final(p)@, old(p)@),
{
    lemma_set(old(p)@.terrain, name@, outline@);
}

/// Building an outline for sharing gives that of the sprite, if it has one.
pub proof fn law_shared_outline_is_that_of_sprite(
    bytes: &[u8],
    dims: (u32, u32),
    size: (F32, F32),
    threshold: u8,
    epsilon: F32,
    r: Option<CollisionOutline>,
)
    requires
        call_ensures(
            TerrainCollisionPlugin::build_shared_outline,
            (bytes, dims, size, threshold, epsilon),
            r,
        ),
    ensures
        match r {
            Some(o) => outline::outline_of(
                bytes@,
                dims.0,
                dims.1,
                size,
                threshold,
                epsilon,
            ) == Some(o@),
            None => outline::outline_of(bytes@, dims.0, dims.1, size, threshold, epsilon) is None,
        },
{
}

/// Registering a dynamic outline gives the object the outline of the sprite, and
/// its key, or is refused, and changes nothing, where there is none.
pub proof fn law_object_gets_its_outline(
    p: &mut TerrainCollisionPlugin,
    name: String,
    bytes: &[u8],
    dims: (u32, u32),
    size: (F32, F32),
    threshold: u8,
    epsilon: F32,
    r: bool,
)
    requires
        call_ensures(
            TerrainCollisionPlugin::register_dynamic_outline,
            (p, name, bytes, dims, size, threshold, epsilon),
            r,
        ),
    ensures
        r <==> used(old(p)@, bytes@, dims, size, threshold, epsilon) is Some,
        r ==> outlined(old(p)@, final(p)@, name@, bytes@, dims, size, threshold, epsilon),
        !r ==> final(p)@ == old(p)@,
{
    if let Some(o) = used(old(p)@, bytes@, dims, size, threshold, epsilon) {
        lemma_set(old(p)@.dynamic_outlines, name@, o);
        lemma_set(
            old(p)@.active_keys,
            name@,
            cache_key::key(bytes@, dims.0, dims.1, size, threshold, epsilon),
        );
    }
}

/// An object has the outline that is used for a sprite, and the key of the sprite.
pub open spec fn outlined(
    before: PluginView,
    after: PluginView,
    name: Seq<char>,
    bytes: Seq<u8>,
    dims: (u32, u32),
    size: (F32, F32),
    threshold: u8,
    epsilon: F32,
) -> bool {
    &&& sets(
        after.dynamic_outlines,
        before.dynamic_outlines,
        name,
        used(before, bytes, dims, size, threshold, epsilon),
    )
    &&& sets(
        after.active_keys,
        before.active_keys,
        name,
        Some(cache_key::key(bytes, dims.0, dims.1, size, threshold, epsilon)),
    )
    &&& after.cache == cached(before, bytes, dims, size, threshold, epsilon)
    &&& same_but_outlines(after, before)
}

/// Making sure of an outline does nothing where the object has the key of the
/// sprite, and else what registering the outline does.
pub proof fn law_ensured_outline_is_there(
    p: &mut TerrainCollisionPlugin,
    name: String,
    bytes: &[u8],
    dims: (u32, u32),
    size: (F32, F32),
    threshold: u8,
    epsilon: F32,
    r: bool,
)
    requires
        call_ensures(
            TerrainCollisionPlugin::ensure_dynamic_outline_for_image,
            (p, name, bytes, dims, size, threshold, epsilon),
            r,
        ),
    ensures
        ensured(old(p)@, final(p)@, name@, bytes@, dims, size, threshold, epsilon, r),
{
    lemma_ensured(old(p)@, name@, bytes@, dims, size, threshold, epsilon);
}

/// Registering the outline of a decoded image registers that of its bytes, with its
/// width and height; one without pixels is refused.
pub proof fn law_object_gets_outline_of_image(
    p: &mut TerrainCollisionPlugin,
    name: String,
    image: &SharedImage,
    size: (F32, F32),
    threshold: u8,
    epsilon: F32,
    r: bool,
)
    requires
        call_ensures(
            TerrainCollisionPlugin::register_dynamic_outline_from_image,
            (p, name, image, size, threshold, epsilon),
            r,
        ),
    ensures
        ({
            let bytes = image_source::image_bytes(*image);
            let dims = (image_source::image_width(*image), image_source::image_height(*image));
            if dims.0 > 0 && dims.1 > 0 && used(
                old(p)@,
                bytes,
                dims,
                size,
                threshold,
                epsilon,
            ) is Some {
                r && outlined(old(p)@, final(p)@, name@, bytes, dims, size, threshold, epsilon)
            } else {
                !r && final(p)@ == old(p)@
            }
        }),
{
    let bytes = image_source::image_bytes(*image);
    let dims = (image_source::image_width(*image), image_source::image_height(*image));
    if let Some(o) = used(old(p)@, bytes, dims, size, threshold, epsilon) {
        lemma_set(old(p)@.dynamic_outlines, name@, o);
        lemma_set(
            old(p)@.active_keys,
            name@,
            cache_key::key(bytes, dims.0, dims.1, size, threshold, epsilon),
        );
    }
}

/// Registering a member of a group puts it, with the outline of its sprite, behind
/// the other members, or is refused, and changes nothing, where there is no
/// outline.
pub proof fn law_member_gets_its_outline(
    p: &mut TerrainCollisionPlugin,
    group: String,
    name: String,
    bytes: &[u8],
    dims: (u32, u32),
    size: (F32, F32),
    threshold: u8,
    epsilon: F32,
    r: bool,
)
    requires
        call_ensures(
            TerrainCollisionPlugin::register_group_member,
            (p, group, name, bytes, dims, size, threshold, epsilon),
            r,
        ),
    ensures
        r <==> used(old(p)@, bytes@, dims, size, threshold, epsilon) is Some,
        r ==> sets(
            final(p)@.groups,
            old(p)@.groups,
            group@,
            Some(
                match names::lookup(old(p)@.groups, group@) {
                    Some(members) => members,
                    None => Seq::empty(),
                }.push((name@, used(old(p)@, bytes@, dims, size, threshold, epsilon)->0)),
            ),
        ) && final(p)@.cache == cached(old(p)@, bytes@, dims, size, threshold, epsilon)
            && same_but_groups(final(p)@, old(p)@),
        !r ==> final(p)@ == old(p)@,
{
    if let Some(o) = used(old(p)@, bytes@, dims, size, threshold, epsilon) {
        lemma_set(old(p)@.groups, group@, old(p)@.members(group@).push((name@, o)));
    }
}

// ---- removal ----

/// Without its outline, an object has neither outline nor key, and nothing else is
/// changed.
pub proof fn law_unregistered_object_has_no_outline(p: &mut TerrainCollisionPlugin, name: &str)
    requires
        old(p)@.consistent(),
        call_ensures(TerrainCollisionPlugin::unregister_dynamic_outline, (p, name), ()),
    ensures
        sets(final(p)@.dynamic_outlines, old(p)@.dynamic_outlines, name@, None),
        sets(final(p)@.active_keys, old(p)@.active_keys, name@, None),
        final(p)@.cache == old(p)@.cache,
        same_but_outlines(final(p)@, old(p)@),
{
    lemma_unset(old(p)@.dynamic_outlines, name@);
    lemma_unset(old(p)@.active_keys, name@);
}

/// A cleared group has no members; there is no new group, and nothing else is
/// changed.
pub proof fn law_cleared_group_has_no_members(p: &mut TerrainCollisionPlugin, group: &str)
    requires
        call_ensures(TerrainCollisionPlugin::clear_group, (p, group), ()),
    ensures
        names::lookup(old(p)@.groups, group@) is Some ==> sets(
            final(p)@.groups,
            old(p)@.groups,
            group@,
            Some(Seq::empty()),
        ),
        names::lookup(old(p)@.groups, group@) is None ==> final(p)@.groups == old(p)@.groups,
        final(p)@.cache == old(p)@.cache,
        same_but_groups(final(p)@, old(p)@),
{
    lemma_set(old(p)@.groups, group@, Seq::empty());
}

/// A platform that was added as dynamic is moved, unless it is an obstacle. Nothing
/// else is changed: who was moved before is moved, and no other object is.
pub proof fn law_added_object_is_dynamic(
    p: &mut TerrainCollisionPlugin,
    name: String,
    other: Seq<char>,
    object: GameObject,
)
    requires
        call_ensures(TerrainCollisionPlugin::add_dynamic, (p, name), ()),
    ensures
        final(p)@.is_dynamic(other, object) <==> old(p)@.is_dynamic(other, object) || (other
            == name@ && !names::holds(old(p)@.obstacles(), other)),
        final(p)@ == (PluginView { explicit_dynamic: final(p)@.explicit_dynamic, ..old(p)@ }),
{
    let before = old(p)@.explicit_dynamic;
    let after = final(p)@.explicit_dynamic;
    if before.contains(other) {
        let i = choose|i: int| 0 <= i < before.len() && before[i] == other;
        assert(after[i] == other);
    }
    if after.contains(other) && other != name@ {
        let i = choose|i: int| 0 <= i < after.len() && after[i] == other;
        assert(before[i] == other);
    }
    if other == name@ {
        assert(after[before.len() as int] == other);
    }
}

/// The restitution is what it was set to, and nothing else is changed.
pub proof fn law_restitution_is_set(p: &mut TerrainCollisionPlugin, restitution: F32)
    requires
        call_ensures(TerrainCollisionPlugin::set_restitution, (p, restitution), ()),
    ensures
        final(p)@.restitution == restitution,
        final(p)@ == (PluginView { restitution, ..old(p)@ }),
{
}

/// A new plugin has no outlines, keeps nobody out of anything, and absorbs
/// momentum.
pub proof fn law_new_plugin_is_empty(p: TerrainCollisionPlugin)
    requires
        call_ensures(TerrainCollisionPlugin::new, (), p),
    ensures
        p@.terrain.len() == 0,
        p@.dynamic_outlines.len() == 0,
        p@.active_keys.len() == 0,
        p@.explicit_dynamic.len() == 0,
        p@.groups.len() == 0,
        p@.cache.dom().is_empty(),
        p@.restitution.bits == 0,
{
    assert(p@.cache.dom() =~= Set::empty());
}

// ---- actions and commands ----

/// A text begins with another one.
pub open spec fn begins_with(text: Seq<char>, word: Seq<char>) -> bool {
    exists|rest: Seq<char>| text == #[trigger] (word + rest)
}

/// An action takes effect on what is named behind its colon: an object becomes
/// dynamic, terrain is no terrain any longer, an object loses its outline and key,
/// a group is removed or cleared. Nothing else is changed, and any other text is
/// refused.
pub proof fn law_action_takes_effect(
    p: &mut TerrainCollisionPlugin,
    data: &str,
    name: Seq<char>,
    r: bool,
)
    requires
        old(p)@.consistent(),
        call_ensures(TerrainCollisionPlugin::on_action, (p, data), r),
    ensures
        data@ == "register_dynamic:"@ + name ==> r && final(p)@ == (PluginView {
            explicit_dynamic: old(p)@.explicit_dynamic.push(name),
            ..old(p)@
        }),
        data@ == "unregister_terrain:"@ + name ==> r && sets(
            final(p)@.terrain,
            old(p)@.terrain,
            name,
            None,
        ) && final(p)@.cache == old(p)@.cache && same_but_terrain(final(p)@, old(p)@),
        data@ == "unregister_dynamic_outline:"@ + name ==> r && sets(
            final(p)@.dynamic_outlines,
            old(p)@.dynamic_outlines,
            name,
            None,
        ) && sets(final(p)@.active_keys, old(p)@.active_keys, name, None) && final(p)@.cache
            == old(p)@.cache && same_but_outlines(final(p)@, old(p)@),
        data@ == "remove_group:"@ + name ==> r && sets(
            final(p)@.groups,
            old(p)@.groups,
            name,
            None,
        ) && final(p)@.cache == old(p)@.cache && same_but_groups(final(p)@, old(p)@),
        data@ == "rebuild:"@ + name ==> r && (names::lookup(old(p)@.groups, name) is Some ==> sets(
            final(p)@.groups,
            old(p)@.groups,
            name,
            Some(Seq::empty()),
        )) && (names::lookup(old(p)@.groups, name) is None ==> final(p)@.groups == old(p)@.groups)
            && final(p)@.cache == old(p)@.cache && same_but_groups(final(p)@, old(p)@),
        !begins_with(data@, "register_dynamic:"@) && !begins_with(data@, "unregister_terrain:"@)
            && !begins_with(data@, "unregister_dynamic_outline:"@) && !begins_with(
            data@,
            "remove_group:"@,
        ) && !begins_with(data@, "rebuild:"@) ==> !r && final(p)@ == old(p)@,
{
    laws::law_actions_are_methods(old(p)@, name);
    lemma_unset(old(p)@.terrain, name);
    lemma_unset(old(p)@.dynamic_outlines, name);
    lemma_unset(old(p)@.active_keys, name);
    lemma_unset(old(p)@.groups, name);
    lemma_set(old(p)@.groups, name, Seq::empty());
    lemma_begins(data@, "register_dynamic:"@);
    lemma_begins(data@, "unregister_terrain:"@);
    lemma_begins(data@, "unregister_dynamic_outline:"@);
    lemma_begins(data@, "remove_group:"@);
    lemma_begins(data@, "rebuild:"@);
}

proof fn lemma_begins(text: Seq<char>, word: Seq<char>)
    ensures
        model::stripped(text, word) is Some ==> begins_with(text, word),
{
    if model::stripped(text, word) is Some {
        assert(text =~= word + text.skip(word.len() as int));
    }
}

/// A command to make sure of an outline does what the method for it does, with what
/// the command holds; one with a decoded image does so with the bytes, the width
/// and the height of the image, and is refused if the image has no pixels.
pub proof fn law_command_ensures_outline(
    p: &mut TerrainCollisionPlugin,
    call: &TerrainCollisionCall,
    r: bool,
)
    requires
        call_ensures(TerrainCollisionPlugin::on_call, (p, call), r),
    ensures
        match *call {
            TerrainCollisionCall::EnsureDynamicOutlineForImage {
                name,
                rgba_bytes,
                sprite_dims,
                object_size,
                threshold,
                rdp_epsilon,
            } => ensured(
                old(p)@,
                final(p)@,
                name@,
                rgba_bytes@,
                sprite_dims,
                object_size,
                threshold,
                rdp_epsilon,
                r,
            ),
            TerrainCollisionCall::PinCollisionImage {
                name,
                image,
                object_size,
                threshold,
                rdp_epsilon,
            } => {
                let w = image_source::image_width(image);
                let h = image_source::image_height(image);
                if w == 0 || h == 0 {
                    !r && final(p)@ == old(p)@
                } else {
                    ensured(
                        old(p)@,
                        final(p)@,
                        name@,
                        image_source::image_bytes(image),
                        (w, h),
                        object_size,
                        threshold,
                        rdp_epsilon,
                        r,
                    )
                }
            },
            TerrainCollisionCall::UnregisterDynamicOutline { name } => old(p)@.consistent() ==> r
                && sets(final(p)@.dynamic_outlines, old(p)@.dynamic_outlines, name@, None) && sets(
                final(p)@.active_keys,
                old(p)@.active_keys,
                name@,
                None,
            ) && final(p)@.cache == old(p)@.cache && same_but_outlines(final(p)@, old(p)@),
        },
{
    match *call {
        TerrainCollisionCall::EnsureDynamicOutlineForImage {
            name,
            rgba_bytes,
            sprite_dims,
            object_size,
            threshold,
            rdp_epsilon,
        } => {
            lemma_ensured(
                old(p)@,
                name@,
                rgba_bytes@,
                sprite_dims,
                object_size,
                threshold,
                rdp_epsilon,
            );
        },
        TerrainCollisionCall::PinCollisionImage {
            name,
            image,
            object_size,
            threshold,
            rdp_epsilon,
        } => {
            lemma_ensured(
                old(p)@,
                name@,
                image_source::image_bytes(image),
                (image_source::image_width(image), image_source::image_height(image)),
                object_size,
                threshold,
                rdp_epsilon,
            );
        },
        TerrainCollisionCall::UnregisterDynamicOutline { name } => {
            if old(p)@.consistent() {
                lemma_unset(old(p)@.dynamic_outlines, name@);
                lemma_unset(old(p)@.active_keys, name@);
            }
        },
    }
}

/// What is left after making sure of an outline, and whether that succeeded.
pub open spec fn ensured(
    before: PluginView,
    after: PluginView,
    name: Seq<char>,
    bytes: Seq<u8>,
    dims: (u32, u32),
    size: (F32, F32),
    threshold: u8,
    epsilon: F32,
    r: bool,
) -> bool {
    let key = cache_key::key(bytes, dims.0, dims.1, size, threshold, epsilon);
    if names::lookup(before.active_keys, name) == Some(key) {
        r && after == before
    } else if used(before, bytes, dims, size, threshold, epsilon) is Some {
        r && outlined(before, after, name, bytes, dims, size, threshold, epsilon)
    } else {
        !r && after == before
    }
}

proof fn lemma_ensured(
    before: PluginView,
    name: Seq<char>,
    bytes: Seq<u8>,
    dims: (u32, u32),
    size: (F32, F32),
    threshold: u8,
    epsilon: F32,
)
    ensures
        match before.ensuring_dynamic_outline(
            name,
            (model::Sprite { bytes, dims, size, threshold, epsilon }),
        ) {
            Some(after) => ensured(
                before,
                after,
                name,
                bytes,
                dims,
                size,
                threshold,
                epsilon,
                true,
            ),
            None => ensured(
                before,
                before,
                name,
                bytes,
                dims,
                size,
                threshold,
                epsilon,
                false,
            ),
        },
{
    if let Some(o) = used(before, bytes, dims, size, threshold, epsilon) {
        lemma_set(before.dynamic_outlines, name, o);
        lemma_set(
            before.active_keys,
            name,
            cache_key::key(bytes, dims.0, dims.1, size, threshold, epsilon),
        );
    }
}

/// The outline that a command asks for is there or can be had, or the command asks
/// for none.
pub open spec fn could_be_carried_out(p: PluginView, call: TerrainCollisionCall) -> bool {
    match call {
        TerrainCollisionCall::EnsureDynamicOutlineForImage {
            name,
            rgba_bytes,
            sprite_dims,
            object_size,
            threshold,
            rdp_epsilon,
        } => is_there_or_can_be_had(
            p,
            name@,
            rgba_bytes@,
            sprite_dims,
            object_size,
            threshold,
            rdp_epsilon,
        ),
        TerrainCollisionCall::PinCollisionImage {
            name,
            image,
            object_size,
            threshold,
            rdp_epsilon,
        } => {
            let dims = (image_source::image_width(image), image_source::image_height(image));
            dims.0 == 0 || dims.1 == 0 || is_there_or_can_be_had(
                p,
                name@,
                image_source::image_bytes(image),
                dims,
                object_size,
                threshold,
                rdp_epsilon,
            )
        },
        TerrainCollisionCall::UnregisterDynamicOutline { name } => true,
    }
}

/// A command that is tried is carried out unless its outline cannot be computed,
/// and then nothing is changed.
pub proof fn law_tried_command_is_carried_out(
    p: &mut TerrainCollisionPlugin,
    call: &TerrainCollisionCall,
    r: Option<bool>,
)
    requires
        call_ensures(TerrainCollisionPlugin::try_call, (p, call), r),
    ensures
        could_be_carried_out(old(p)@, *call) ==> r is Some,
        r is None ==> final(p)@ == old(p)@,
        r is Some ==> match *call {
            TerrainCollisionCall::EnsureDynamicOutlineForImage {
                name,
                rgba_bytes,
                sprite_dims,
                object_size,
                threshold,
                rdp_epsilon,
            } => ensured(
                old(p)@,
                final(p)@,
                name@,
                rgba_bytes@,
                sprite_dims,
                object_size,
                threshold,
                rdp_epsilon,
                r->0,
            ),
            TerrainCollisionCall::PinCollisionImage {
                name,
                image,
                object_size,
                threshold,
                rdp_epsilon,
            } => {
                let w = image_source::image_width(image);
                let h = image_source::image_height(image);
                if w == 0 || h == 0 {
                    !r->0 && final(p)@ == old(p)@
                } else {
                    ensured(
                        old(p)@,
                        final(p)@,
                        name@,
                        image_source::image_bytes(image),
                        (w, h),
                        object_size,
                        threshold,
                        rdp_epsilon,
                        r->0,
                    )
                }
            },
            TerrainCollisionCall::UnregisterDynamicOutline { name } => old(p)@.consistent()
                ==> r->0 && sets(
                final(p)@.dynamic_outlines,
                old(p)@.dynamic_outlines,
                name@,
                None,
            ) && sets(final(p)@.active_keys, old(p)@.active_keys, name@, None) && final(p)@.cache
                == old(p)@.cache && same_but_outlines(final(p)@, old(p)@),
        },
{
    match *call {
        TerrainCollisionCall::EnsureDynamicOutlineForImage {
            name,
            rgba_bytes,
            sprite_dims,
            object_size,
            threshold,
            rdp_epsilon,
        } => {
            lemma_ensured(
                old(p)@,
                name@,
                rgba_bytes@,
                sprite_dims,
                object_size,
                threshold,
                rdp_epsilon,
            );
        },
        TerrainCollisionCall::PinCollisionImage {
            name,
            image,
            object_size,
            threshold,
            rdp_epsilon,
        } => {
            lemma_ensured(
                old(p)@,
                name@,
                image_source::image_bytes(image),
                (image_source::image_width(image), image_source::image_height(image)),
                object_size,
                threshold,
                rdp_epsilon,
            );
        },
        TerrainCollisionCall::UnregisterDynamicOutline { name } => {
            if old(p)@.consistent() {
                lemma_unset(old(p)@.dynamic_outlines, name@);
                lemma_unset(old(p)@.active_keys, name@);
            }
        },
    }
}

/// An image whose outline is tried to be registered is registered unless its
/// outline cannot be computed, and then nothing is changed.
pub proof fn law_tried_image_is_registered(
    p: &mut TerrainCollisionPlugin,
    name: String,
    image: &SharedImage,
    size: (F32, F32),
    threshold: u8,
    epsilon: F32,
    r: Option<bool>,
)
    requires
        call_ensures(
            TerrainCollisionPlugin::try_register_dynamic_outline_from_image,
            (p, name, image, size, threshold, epsilon),
            r,
        ),
    ensures
        ({
            let bytes = image_source::image_bytes(*image);
            let dims = (image_source::image_width(*image), image_source::image_height(*image));
            dims.0 == 0 || dims.1 == 0 || can_be_had(
                old(p)@,
                bytes,
                dims,
                size,
                threshold,
                epsilon,
            ) ==> r is Some
        }),
        r is None ==> final(p)@ == old(p)@,
        r is Some ==> ({
            let bytes = image_source::image_bytes(*image);
            let dims = (image_source::image_width(*image), image_source::image_height(*image));
            if dims.0 > 0 && dims.1 > 0 && used(
                old(p)@,
                bytes,
                dims,
                size,
                threshold,
                epsilon,
            ) is Some {
                r->0 && outlined(old(p)@, final(p)@, name@, bytes, dims, size, threshold, epsilon)
            } else {
                !r->0 && final(p)@ == old(p)@
            }
        }),
{
    let bytes = image_source::image_bytes(*image);
    let dims = (image_source::image_width(*image), image_source::image_height(*image));
    if let Some(o) = used(old(p)@, bytes, dims, size, threshold, epsilon) {
        lemma_set(old(p)@.dynamic_outlines, name@, o);
        lemma_set(
            old(p)@.active_keys,
            name@,
            cache_key::key(bytes, dims.0, dims.1, size, threshold, epsilon),
        );
    }
}

// ---- queries ----

/// The polygons of the outline of an object stand where the caller says.
pub proof fn law_world_hulls_stand_at_position(
    p: &TerrainCollisionPlugin,
    name: &str,
    position: (F32, F32),
    rotation: Rotation,
    r: Option<Vec<Vec<(F32, F32)>>>,
)
    requires
        call_ensures(
            TerrainCollisionPlugin::dynamic_outline_world_hulls,
            (p, name, position, rotation),
            r,
        ),
    ensures
        match (r, names::lookup(p@.dynamic_outlines, name@)) {
            (Some(hulls), Some(o)) => {
                &&& hulls@.len() == o.hulls.len()
                &&& forall|i: int|
                    0 <= i < hulls@.len() ==> (#[trigger] hulls@[i])@.len() == o.hulls[i].len()
                &&& forall|i: int, j: int|
                    0 <= i < hulls@.len() && 0 <= j < hulls@[i]@.len() ==> contact_laws::stands_at(
                        (Vec2 { x: (#[trigger] hulls@[i]@[j]).0, y: hulls@[i]@[j].1 }),
                        o.hulls[i][j],
                        o.object_size,
                        Vec2 { x: position.0, y: position.1 },
                        rotation,
                    )
            },
            (None, None) => true,
            _ => false,
        },
{
    if let (Some(hulls), Some(o)) = (r, names::lookup(p@.dynamic_outlines, name@)) {
        let at = Vec2 { x: position.0, y: position.1 };
        let all = o.placed_hulls(at, rotation);
        contact_laws::law_outline_goes_with_object(o, at, rotation, all);
        assert(plugin::points(hulls@) == all);
        assert forall|i: int| 0 <= i < hulls@.len() implies (#[trigger] hulls@[i])@.len()
            == all[i].len() by {
            assert(plugin::points(hulls@)[i].len() == hulls@[i]@.len());
        }
        assert forall|i: int, j: int|
            0 <= i < hulls@.len() && 0 <= j < hulls@[i]@.len() implies contact_laws::stands_at(
            (Vec2 { x: (#[trigger] hulls@[i]@[j]).0, y: hulls@[i]@[j].1 }),
            o.hulls[i][j],
            o.object_size,
            at,
            rotation,
        ) by {
            assert(plugin::points(hulls@)[i][j] == all[i][j]);
            assert(contact_laws::stands_at(
                all[i][j],
                o.hulls[i][j],
                o.object_size,
                at,
                rotation,
            ));
        }
    }
}

/// A circle overlaps the outline of an object if and only if its radius is positive
/// and its polygon is in contact with a polygon of the outline where that stands.
/// Without an outline there is no answer.
pub proof fn law_circle_meets_outline_of_object(
    p: &TerrainCollisionPlugin,
    name: &str,
    center: (F32, F32),
    radius: F32,
    directions: &[Direction],
    position: (F32, F32),
    rotation: Rotation,
    r: Option<bool>,
    ring: Seq<Vec2>,
    hulls: Seq<Seq<Vec2>>,
)
    requires
        call_ensures(
            TerrainCollisionPlugin::circle_overlaps_dynamic_outline,
            (p, name, center, radius, directions, position, rotation),
            r,
        ),
        contact_laws::rings(ring, Vec2 { x: center.0, y: center.1 }, radius, directions@),
        names::lookup(p@.dynamic_outlines, name@) matches Some(o) ==> contact_laws::stand_at(
            hulls,
            o,
            Vec2 { x: position.0, y: position.1 },
            rotation,
        ),
    ensures
        r is Some <==> names::lookup(p@.dynamic_outlines, name@) is Some,
        r is Some ==> (r->0 <==> !radius.spec_le(F32 { bits: 0 }) && exists|k: int|
            0 <= k < hulls.len() && sat::contact(ring, #[trigger] hulls[k]) is Some),
{
    if let Some(o) = names::lookup(p@.dynamic_outlines, name@) {
        contact_laws::law_circle_overlaps_what_it_touches(
            Vec2 { x: center.0, y: center.1 },
            radius,
            directions@,
            o,
            Vec2 { x: position.0, y: position.1 },
            rotation,
            ring,
            hulls,
        );
    }
}

/// The same for an outline that is given.
pub proof fn law_circle_meets_outline(
    center: Vec2,
    radius: F32,
    directions: &[Direction],
    outline: &CollisionOutline,
    position: Vec2,
    rotation: Rotation,
    r: bool,
    ring: Seq<Vec2>,
    hulls: Seq<Seq<Vec2>>,
)
    requires
        call_ensures(
            sat::circle_overlaps_outline,
            (center, radius, directions, outline, position, rotation),
            r,
        ),
        contact_laws::rings(ring, center, radius, directions@),
        contact_laws::stand_at(hulls, outline@, position, rotation),
    ensures
        r <==> !radius.spec_le(F32 { bits: 0 }) && exists|k: int|
            0 <= k < hulls.len() && sat::contact(ring, #[trigger] hulls[k]) is Some,
{
    contact_laws::law_circle_overlaps_what_it_touches(
        center,
        radius,
        directions@,
        outline@,
        position,
        rotation,
        ring,
        hulls,
    );
}

/// An outline can be had that is in the cache, or for which all pixels are given,
/// no more than signed 32-bit numbers can count, and a tolerance that is not
/// negative.
pub open spec fn can_be_had(
    p: PluginView,
    bytes: Seq<u8>,
    dims: (u32, u32),
    size: (F32, F32),
    threshold: u8,
    epsilon: F32,
) -> bool {
    ||| p.cache.contains_key(cache_key::key(bytes, dims.0, dims.1, size, threshold, epsilon))
    ||| dims.0 * dims.1 * 4 <= bytes.len() && dims.0 * dims.1 <= i32::MAX && !epsilon.spec_lt(
        F32 { bits: 0 },
    )
}

/// An object has the key of a sprite, or the outline of the sprite can be had.
pub open spec fn is_there_or_can_be_had(
    p: PluginView,
    name: Seq<char>,
    bytes: Seq<u8>,
    dims: (u32, u32),
    size: (F32, F32),
    threshold: u8,
    epsilon: F32,
) -> bool {
    ||| names::lookup(p.active_keys, name) == Some(
        cache_key::key(bytes, dims.0, dims.1, size, threshold, epsilon),
    )
    ||| can_be_had(p, bytes, dims, size, threshold, epsilon)
}

/// Whatever outline can be had is said to be buildable, and none is of which pixels
/// are missing and that is not cached.
pub proof fn law_buildable_is_what_can_be_had(
    p: &TerrainCollisionPlugin,
    bytes: &[u8],
    dims: (u32, u32),
    size: (F32, F32),
    threshold: u8,
    epsilon: F32,
    r: bool,
)
    requires
        call_ensures(
            TerrainCollisionPlugin::is_buildable,
            (p, bytes, dims, size, threshold, epsilon),
            r,
        ),
    ensures
        can_be_had(p@, bytes@, dims, size, threshold, epsilon) ==> r,
        r && dims.0 * dims.1 * 4 > bytes@.len() ==> p@.cache.contains_key(
            cache_key::key(bytes@, dims.0, dims.1, size, threshold, epsilon),
        ),
{
}

/// An outline can be ensured that can be had, and that the object has already.
pub proof fn law_ensurable_is_what_is_there_or_can_be_had(
    p: &TerrainCollisionPlugin,
    name: &String,
    bytes: &[u8],
    dims: (u32, u32),
    size: (F32, F32),
    threshold: u8,
    epsilon: F32,
    r: bool,
)
    requires
        call_ensures(
            TerrainCollisionPlugin::can_ensure,
            (p, name, bytes, dims, size, threshold, epsilon),
            r,
        ),
    ensures
        is_there_or_can_be_had(p@, name@, bytes@, dims, size, threshold, epsilon) ==> r,
        r && dims.0 * dims.1 * 4 > bytes@.len() ==> p@.cache.contains_key(
            cache_key::key(bytes@, dims.0, dims.1, size, threshold, epsilon),
        ) || names::lookup(p@.active_keys, name@) == Some(
            cache_key::key(bytes@, dims.0, dims.1, size, threshold, epsilon),
        ),
{
}

/// The angles of the corners of a circle are equal parts of its circumference: at
/// least eight, the first is zero, and each is as many parts as there are corners
/// before it.
pub proof fn law_circle_is_divided_evenly(segments: usize, r: Vec<F32>, i: int)
    requires
        call_ensures(sat::circle_angles, (segments,), r),
        0 <= i < r@.len(),
    ensures
        segments < 8 ==> r@.len() == 8,
        segments >= 8 ==> r@.len() == segments,
        r@[i] == F32::spec_from_int(i).spec_div(
            F32::spec_from_int(r@.len() as int),
        ).spec_mul(F32 { bits: sat::TAU }),
{
}

/// The active key of an object is that of its last registration, if it has an
/// outline.
pub proof fn law_active_key_is_found(p: &TerrainCollisionPlugin, name: &str, r: Option<u64>)
    requires
        call_ensures(TerrainCollisionPlugin::active_dynamic_outline_key, (p, name), r),
    ensures
        r == names::lookup(p@.active_keys, name@),
        p@.consistent() ==> (r is Some <==> names::lookup(p@.dynamic_outlines, name@) is Some),
{
    if p@.consistent() {
        assert(p@.key_matches(name@));
    }
}

/// The obstacles are the terrain and the members of all groups: a name is listed if
/// and only if it is that of one of them.
pub proof fn law_obstacles_are_listed(
    p: &TerrainCollisionPlugin,
    r: Vec<String>,
    name: Seq<char>,
    object: GameObject,
)
    requires
        call_ensures(TerrainCollisionPlugin::obstacle_names, (p,), r),
        !object.is_platform,
    ensures
        scene::texts(r@).contains(name) <==> !p@.is_dynamic(name, object),
{
    let all = p@.obstacles();
    let listed = scene::texts(r@);
    names::lemma_holds(all, name);
    if names::holds(all, name) {
        let i = choose|i: int| 0 <= i < all.len() && (#[trigger] all[i]).0 == name;
        assert(listed[i] == name);
    }
    if listed.contains(name) {
        let i = choose|i: int| 0 <= i < listed.len() && listed[i] == name;
        assert(all[i].0 == name);
    }
}

// ---- updates ----

/// What is to be changed of an object is the push on it, and the momentum taken for
/// that; nothing if the object is not in the scene or not moved, or if the push is
/// too short.
pub proof fn law_correction_is_push_and_momentum(
    p: &TerrainCollisionPlugin,
    name: &String,
    s: &Scene,
    r: Option<Correction>,
)
    requires
        call_ensures(TerrainCollisionPlugin::correction, (p, name, s), r),
    ensures
        match names::lookup(s@.objects, name@) {
            Some(object) => {
                let push = p@.push_on(name@, object, s@.objects);
                if p@.is_dynamic(name@, object) && (F32 { bits: model::NO_PUSH }).spec_lt(
                    push.x.spec_mul(push.x).spec_add(push.y.spec_mul(push.y)),
                ) {
                    &&& r is Some
                    &&& r->0.name@ == name@
                    &&& r->0.pos_delta == push
                    &&& r->0.mom_delta == model::cancelled(push, object.momentum, p@.restitution)
                } else {
                    r is None
                }
            },
            None => r is None,
        },
{
}

/// In an update every object goes by the push on it, in both coordinates, and loses
/// the momentum that is taken for that push, unless the push is too short. Who is
/// not moved stays as it is.
pub proof fn law_update_moves_objects(
    p: &TerrainCollisionPlugin,
    s: &mut Scene,
    name: Seq<char>,
    object: GameObject,
)
    requires
        call_ensures(TerrainCollisionPlugin::on_post_update, (p, s), ()),
        old(s)@.names.contains(name),
        old(s)@.names.no_duplicates(),
        names::lookup(old(s)@.objects, name) == Some(object),
    ensures
        final(s)@.names == old(s)@.names,
        ({
            let push = p@.push_on(name, object, old(s)@.objects);
            let taken = model::cancelled(push, object.momentum, p@.restitution);
            let after = names::lookup(final(s)@.objects, name);
            if p@.is_dynamic(name, object) && (F32 { bits: model::NO_PUSH }).spec_lt(
                push.x.spec_mul(push.x).spec_add(push.y.spec_mul(push.y)),
            ) {
                &&& after is Some
                &&& after->0.position.x == object.position.x.spec_add(push.x)
                &&& after->0.position.y == object.position.y.spec_add(push.y)
                &&& after->0.momentum.x == object.momentum.x.spec_sub(taken.x)
                &&& after->0.momentum.y == object.momentum.y.spec_sub(taken.y)
                &&& after->0.size == object.size
                &&& after->0.rotation == object.rotation
                &&& after->0.is_platform == object.is_platform
            } else {
                after == Some(object)
            }
        }),
{
    if p@.is_dynamic(name, object) {
        push_laws::law_object_moves_by_push(p@, old(s)@, name, object);
    } else {
        laws::law_uncorrected_object_stays(p@, old(s)@, name);
    }
}

/// An object that overlaps two terrains, and nothing else is there, goes by the sum
/// of what each of them pushes it by alone.
pub proof fn law_update_adds_pushes_of_terrain(
    p: &TerrainCollisionPlugin,
    s: &mut Scene,
    name: Seq<char>,
    object: GameObject,
    a: GameObject,
    b: GameObject,
    u: Vec2,
    v: Vec2,
    x: F32,
    y: F32,
)
    requires
        call_ensures(TerrainCollisionPlugin::on_post_update, (p, s), ()),
        old(s)@.names.contains(name),
        old(s)@.names.no_duplicates(),
        names::lookup(old(s)@.objects, name) == Some(object),
        !object.is_platform,
        p@.groups.len() == 0,
        p@.terrain.len() == 2,
        p@.terrain[0].0 != name,
        p@.terrain[1].0 != name,
        names::lookup(old(s)@.objects, p@.terrain[0].0) == Some(a),
        names::lookup(old(s)@.objects, p@.terrain[1].0) == Some(b),
        model::push_from(object, names::lookup(p@.dynamic_outlines, name), a, p@.terrain[0].1)
            == Some(u),
        model::push_from(object, names::lookup(p@.dynamic_outlines, name), b, p@.terrain[1].1)
            == Some(v),
        x == (F32 { bits: 0 }).spec_add(u.x).spec_add(v.x),
        y == (F32 { bits: 0 }).spec_add(u.y).spec_add(v.y),
        (F32 { bits: model::NO_PUSH }).spec_lt(x.spec_mul(x).spec_add(y.spec_mul(y))),
    ensures
        ({
            let after = names::lookup(final(s)@.objects, name);
            &&& after is Some
            &&& after->0.position.x == object.position.x.spec_add(x)
            &&& after->0.position.y == object.position.y.spec_add(y)
        }),
{
    push_laws::law_who_is_moved(p@, name, object);
    push_laws::law_two_terrains_push_together(p@, name, object, old(s)@.objects, a, b, u, v);
    law_update_moves_objects(p, s, name, object);
}

/// An object that falls against a vertical push is thrown up by it if the
/// restitution is one, and comes to rest if it is zero; with a horizontal push the
/// same happens to it sideways. What it does across the push goes on.
pub proof fn law_update_throws_back(
    p: &TerrainCollisionPlugin,
    s: &mut Scene,
    name: Seq<char>,
    object: GameObject,
    d: F32,
)
    requires
        call_ensures(TerrainCollisionPlugin::on_post_update, (p, s), ()),
        old(s)@.names.contains(name),
        old(s)@.names.no_duplicates(),
        names::lookup(old(s)@.objects, name) == Some(object),
        p@.is_dynamic(name, object),
        0x2080_0000 <= d.mag() < 0x5e80_0000,
        0x80_0000 <= object.momentum.x.mag() < 0x7f00_0000,
        0x80_0000 <= object.momentum.y.mag() < 0x7f00_0000,
        names::lookup(final(s)@.objects, name) != Some(object),
    ensures
        ({
            let push = p@.push_on(name, object, old(s)@.objects);
            let before = object.momentum;
            let after = (names::lookup(final(s)@.objects, name)->0).momentum;
            let elastic = p@.restitution.bits == ONE;
            let absorbing = p@.restitution.bits == 0;
            &&& push == (Vec2 { x: F32 { bits: 0 }, y: d }) && before.y.negative() != d.negative()
                ==> {
                &&& elastic ==> after.y == before.y.spec_neg()
                &&& absorbing ==> after.y.bits == 0
                &&& elastic || absorbing ==> after.x.value() == before.x.value()
            }
            &&& push == (Vec2 { x: d, y: F32 { bits: 0 } }) && before.x.negative() != d.negative()
                ==> {
                &&& elastic ==> after.x == before.x.spec_neg()
                &&& absorbing ==> after.x.bits == 0
                &&& elastic || absorbing ==> after.y.value() == before.y.value()
            }
        }),
{
    law_update_moves_objects(p, s, name, object);
    let push = p@.push_on(name, object, old(s)@.objects);
    if push == (Vec2 { x: F32 { bits: 0 }, y: d }) && object.momentum.y.negative()
        != d.negative() {
        momentum_laws::law_floor_throws_up(d, object.momentum);
    }
    if push == (Vec2 { x: d, y: F32 { bits: 0 } }) && object.momentum.x.negative()
        != d.negative() {
        momentum_laws::law_wall_throws_back(d, object.momentum);
    }
}

} // verus!
