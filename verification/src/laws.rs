//! Laws of the plugin.

use crate::float::F32;
use crate::float_laws;
use crate::group_laws;
use crate::image_source::SharedImage;
use crate::model;
use crate::model::CallView;
use crate::model::PluginView;
use crate::model::Sprite;
use crate::names;
use crate::outline;
use crate::outline::OutlineView;
use crate::scene::CorrectionView;
use crate::scene::GameObject;
use crate::scene::SceneView;
use crate::vec2::Vec2;
use vstd::prelude::*;

verus! {

// ---- consistency ----

/// A new plugin is consistent.
pub proof fn law_initial_is_consistent()
    ensures
        PluginView::initial().consistent(),
{
}

proof fn lemma_remembering(p: PluginView, sprite: Sprite)
    requires
        p.consistent(),
    ensures
        p.remembering(sprite.key(), sprite).consistent(),
        p.built(sprite.key(), sprite) is Some ==> ({
            let q = p.remembering(sprite.key(), sprite);
            q.cache.contains_key(sprite.key()) && Some(q.cache[sprite.key()]) == p.built(
                sprite.key(),
                sprite,
            )
        }),
{
    let key = sprite.key();
    let q = p.remembering(key, sprite);
    assert forall|k: u64| #[trigger] q.cache.contains_key(k) implies model::has_key(
        k,
        q.cache[k],
    ) by {
        if !p.cache.contains_key(k) {
            assert(k == key);
            assert(sprite.key() == key && sprite.outline() == Some(q.cache[k]));
        }
    }
    assert forall|name: Seq<char>|
        #![trigger names::lookup(q.active_keys, name)]
        #![trigger names::lookup(q.dynamic_outlines, name)]
        q.key_matches(name) by {
        assert(p.key_matches(name));
    }
}

/// Registrations keep a plugin consistent.
pub proof fn law_registration_keeps_consistency(
    p: PluginView,
    name: Seq<char>,
    group: Seq<char>,
    sprite: Sprite,
    shared: OutlineView,
)
    requires
        p.consistent(),
    ensures
        p.sharing_terrain(name, shared).consistent(),
        p.with_explicit_dynamic(name).consistent(),
        p.with_terrain(name, sprite) matches Some(q) ==> q.consistent(),
        p.with_dynamic_outline(name, sprite) matches Some(q) ==> q.consistent(),
        p.ensuring_dynamic_outline(name, sprite) matches Some(q) ==> q.consistent(),
        p.with_group_member(group, name, sprite) matches Some(q) ==> q.consistent(),
{
    let key = sprite.key();
    let r = p.remembering(key, sprite);
    lemma_remembering(p, sprite);
    names::law_names_stay_unique(p.terrain, name, shared);
    lemma_same_outlines(p, p.sharing_terrain(name, shared));
    lemma_same_outlines(p, p.with_explicit_dynamic(name));
    if let Some(o) = p.built(key, sprite) {
        names::law_names_stay_unique(p.terrain, name, o);
        lemma_same_outlines(r, p.with_terrain(name, sprite)->0);
        let members = p.members(group).push((name, o));
        names::law_names_stay_unique(p.groups, group, members);
        lemma_same_outlines(r, p.with_group_member(group, name, sprite)->0);
        let q = p.with_dynamic_outline(name, sprite)->0;
        names::law_names_stay_unique(p.dynamic_outlines, name, o);
        names::law_names_stay_unique(p.active_keys, name, key);
        assert forall|other: Seq<char>|
            #![trigger names::lookup(q.active_keys, other)]
            #![trigger names::lookup(q.dynamic_outlines, other)]
            q.key_matches(other) by {
            names::law_insert_then_lookup(p.dynamic_outlines, name, o, other);
            names::law_insert_then_lookup(p.active_keys, name, key, other);
            assert(r.key_matches(other));
        }
    }
}

/// Terrain, groups and the list of explicitly dynamic objects do not matter for
/// the dynamic outlines.
proof fn lemma_same_outlines(p: PluginView, q: PluginView)
    requires
        p.consistent(),
        p.dynamic_outlines == q.dynamic_outlines,
        p.active_keys == q.active_keys,
        p.cache == q.cache,
        names::unique(q.terrain),
        names::unique(q.groups),
    ensures
        q.consistent(),
{
    assert forall|name: Seq<char>|
        #![trigger names::lookup(q.active_keys, name)]
        #![trigger names::lookup(q.dynamic_outlines, name)]
        q.key_matches(name) by {
        assert(p.key_matches(name));
    }
}

/// Removals keep a plugin consistent.
pub proof fn law_removal_keeps_consistency(p: PluginView, name: Seq<char>)
    requires
        p.consistent(),
    ensures
        p.without_terrain(name).consistent(),
        p.without_group(name).consistent(),
        p.with_group_cleared(name).consistent(),
        p.without_dynamic_outline(name).consistent(),
{
    let none = Seq::<(Seq<char>, OutlineView)>::empty();
    names::law_names_stay_unique(p.groups, name, none);
    if p.terrain.len() > 0 {
        names::law_names_stay_unique(p.terrain, name, p.terrain[0].1);
    }
    lemma_same_outlines(p, p.without_terrain(name));
    lemma_same_outlines(p, p.without_group(name));
    lemma_same_outlines(p, p.with_group_cleared(name));
    let q = p.without_dynamic_outline(name);
    if p.dynamic_outlines.len() > 0 {
        names::law_names_stay_unique(p.dynamic_outlines, name, p.dynamic_outlines[0].1);
    }
    names::law_names_stay_unique(p.active_keys, name, 0);
    assert forall|other: Seq<char>|
        #![trigger names::lookup(q.active_keys, other)]
        #![trigger names::lookup(q.dynamic_outlines, other)]
        q.key_matches(other) by {
        names::law_remove_then_lookup(p.dynamic_outlines, name, other);
        names::law_remove_then_lookup(p.active_keys, name, other);
        assert(p.key_matches(other));
    }
}

/// Actions and commands keep a plugin consistent.
pub proof fn law_actions_keep_consistency(p: PluginView, data: Seq<char>, call: CallView)
    requires
        p.consistent(),
    ensures
        p.acting(data) matches Some(q) ==> q.consistent(),
        p.called(call) matches Some(q) ==> q.consistent(),
{
    if let Some(name) = model::stripped(data, "register_dynamic:"@) {
        lemma_same_outlines(p, p.with_explicit_dynamic(name));
    } else if let Some(name) = model::stripped(data, "unregister_terrain:"@) {
        law_removal_keeps_consistency(p, name);
    } else if let Some(name) = model::stripped(data, "unregister_dynamic_outline:"@) {
        law_removal_keeps_consistency(p, name);
    } else if let Some(name) = model::stripped(data, "remove_group:"@) {
        law_removal_keeps_consistency(p, name);
    } else if let Some(name) = model::stripped(data, "rebuild:"@) {
        law_removal_keeps_consistency(p, name);
    }
    match call {
        CallView::Ensure { name, sprite } => {
            lemma_ensuring(p, name, sprite);
        },
        CallView::Pin { name, image, size, threshold, epsilon } => {
            lemma_ensuring(p, name, model::image_sprite(image, size, threshold, epsilon));
        },
        CallView::Unregister { name } => {
            law_removal_keeps_consistency(p, name);
        },
    }
}

proof fn lemma_ensuring(p: PluginView, name: Seq<char>, sprite: Sprite)
    requires
        p.consistent(),
    ensures
        p.ensuring_dynamic_outline(name, sprite) matches Some(q) ==> q.consistent(),
{
    if let Some(o) = p.built(sprite.key(), sprite) {
        law_registration_keeps_consistency(p, name, name, sprite, o);
    }
}

// ---- registration ----

/// Identical sprites share one outline: after the first registration, the second
/// one finds the outline in the cache and leaves the cache as it is.
pub proof fn law_identical_sprites_share_outline(
    p: PluginView,
    first: Seq<char>,
    second: Seq<char>,
    sprite: Sprite,
)
    requires
        p.with_terrain(first, sprite) is Some,
    ensures
        ({
            let q = p.with_terrain(first, sprite)->0;
            &&& q.buildable(sprite)
            &&& q.built(sprite.key(), sprite) == p.built(sprite.key(), sprite)
            &&& q.with_terrain(second, sprite) matches Some(r) && r.cache == q.cache
                && names::lookup(r.terrain, first) == names::lookup(r.terrain, second)
                && names::lookup(r.terrain, first) is Some
        }),
{
    let o = p.built(sprite.key(), sprite)->0;
    let q = p.with_terrain(first, sprite)->0;
    names::law_insert_then_lookup(p.terrain, first, o, first);
    names::law_insert_then_lookup(q.terrain, second, o, first);
    names::law_insert_then_lookup(q.terrain, second, o, second);
}

/// Whatever an outline is registered for, it is in the cache afterwards.
pub proof fn law_registered_outline_is_cached(
    p: PluginView,
    name: Seq<char>,
    group: Seq<char>,
    sprite: Sprite,
)
    requires
        p.built(sprite.key(), sprite) is Some,
    ensures
        ({
            let key = sprite.key();
            let o = p.built(key, sprite)->0;
            &&& p.with_terrain(name, sprite) matches Some(q) && q.cache.contains_pair(key, o)
            &&& p.with_dynamic_outline(name, sprite) matches Some(q) && q.cache.contains_pair(
                key,
                o,
            )
            &&& p.with_group_member(group, name, sprite) matches Some(q) && q.cache.contains_pair(
                key,
                o,
            )
        }),
{
}

/// What is cached stays cached, whatever happens.
pub proof fn law_cache_only_grows(
    p: PluginView,
    name: Seq<char>,
    group: Seq<char>,
    sprite: Sprite,
    shared: OutlineView,
    data: Seq<char>,
    call: CallView,
)
    ensures
        p.cache.submap_of(p.sharing_terrain(name, shared).cache),
        p.cache.submap_of(p.with_explicit_dynamic(name).cache),
        p.cache.submap_of(p.without_dynamic_outline(name).cache),
        p.cache.submap_of(p.with_group_cleared(group).cache),
        p.with_terrain(name, sprite) matches Some(q) ==> p.cache.submap_of(q.cache),
        p.with_dynamic_outline(name, sprite) matches Some(q) ==> p.cache.submap_of(q.cache),
        p.ensuring_dynamic_outline(name, sprite) matches Some(q) ==> p.cache.submap_of(q.cache),
        p.with_group_member(group, name, sprite) matches Some(q) ==> p.cache.submap_of(q.cache),
        p.acting(data) matches Some(q) ==> p.cache.submap_of(q.cache),
        p.called(call) matches Some(q) ==> p.cache.submap_of(q.cache),
{
}

/// A cached outline is the one that is used, and nothing is built.
pub proof fn law_cached_outline_is_used(p: PluginView, q: PluginView, sprite: Sprite)
    requires
        p.cache.submap_of(q.cache),
        p.cache.contains_key(sprite.key()),
    ensures
        q.buildable(sprite),
        q.built(sprite.key(), sprite) == Some(p.cache[sprite.key()]),
        q.remembering(sprite.key(), sprite) == q,
{
}

/// What is registered is the outline of the sprite, if no other sprite with the
/// same key has another outline.
pub proof fn law_outline_is_that_of_sprite(p: PluginView, sprite: Sprite)
    requires
        p.consistent(),
        forall|s: Sprite| #[trigger] s.key() == sprite.key() ==> s.outline() == sprite.outline(),
    ensures
        p.built(sprite.key(), sprite) == sprite.outline(),
{
    if p.cache.contains_key(sprite.key()) {
        assert(model::has_key(sprite.key(), p.cache[sprite.key()]));
    }
}

/// A sprite without a visible pixel is refused, unless another one is cached with
/// the same key.
pub proof fn law_invisible_sprite_is_refused(
    p: PluginView,
    name: Seq<char>,
    group: Seq<char>,
    sprite: Sprite,
)
    requires
        forall|i: int|
            0 <= i < sprite.dims.0 * sprite.dims.1 ==> #[trigger] sprite.bytes[i * 4 + 3]
                <= sprite.threshold,
        !p.cache.contains_key(sprite.key()),
    ensures
        p.with_terrain(name, sprite) is None,
        p.with_dynamic_outline(name, sprite) is None,
        p.with_group_member(group, name, sprite) is None,
{
    outline::law_invisible_sprite_has_no_outline(
        sprite.bytes,
        sprite.dims.0,
        sprite.dims.1,
        sprite.size,
        sprite.threshold,
        sprite.epsilon,
    );
}

/// Registered terrain has its outline, and other terrain keeps its own.
pub proof fn law_registered_terrain_is_found(
    p: PluginView,
    name: Seq<char>,
    other: Seq<char>,
    sprite: Sprite,
)
    requires
        p.with_terrain(name, sprite) is Some,
    ensures
        names::lookup((p.with_terrain(name, sprite)->0).terrain, other) == if other == name {
            p.built(sprite.key(), sprite)
        } else {
            names::lookup(p.terrain, other)
        },
{
    names::law_insert_then_lookup(p.terrain, name, p.built(sprite.key(), sprite)->0, other);
}

/// A registered dynamic outline is found, with its key, and the outlines of other
/// objects stay as they are.
pub proof fn law_registered_dynamic_outline_is_found(
    p: PluginView,
    name: Seq<char>,
    other: Seq<char>,
    sprite: Sprite,
)
    requires
        p.with_dynamic_outline(name, sprite) is Some,
    ensures
        ({
            let q = p.with_dynamic_outline(name, sprite)->0;
            &&& names::lookup(q.dynamic_outlines, other) == if other == name {
                p.built(sprite.key(), sprite)
            } else {
                names::lookup(p.dynamic_outlines, other)
            }
            &&& names::lookup(q.active_keys, other) == if other == name {
                Some(sprite.key())
            } else {
                names::lookup(p.active_keys, other)
            }
        }),
{
    let key = sprite.key();
    names::law_insert_then_lookup(p.dynamic_outlines, name, p.built(key, sprite)->0, other);
    names::law_insert_then_lookup(p.active_keys, name, key, other);
}

/// Making sure of an outline once more does nothing.
pub proof fn law_ensuring_is_idempotent(p: PluginView, name: Seq<char>, sprite: Sprite)
    requires
        p.ensuring_dynamic_outline(name, sprite) is Some,
    ensures
        ({
            let q = p.ensuring_dynamic_outline(name, sprite)->0;
            q.up_to_date(name, sprite) && q.ensuring_dynamic_outline(name, sprite) == Some(q)
        }),
{
    if !p.up_to_date(name, sprite) {
        names::law_insert_then_lookup(p.active_keys, name, sprite.key(), name);
    }
}

/// Without its outline, an object has no key either, and the outlines of other
/// objects stay as they are.
pub proof fn law_unregistered_outline_is_gone(
    p: PluginView,
    name: Seq<char>,
    other: Seq<char>,
)
    requires
        p.consistent(),
    ensures
        ({
            let q = p.without_dynamic_outline(name);
            &&& names::lookup(q.dynamic_outlines, name) is None
            &&& names::lookup(q.active_keys, name) is None
            &&& other != name ==> names::lookup(q.dynamic_outlines, other) == names::lookup(
                p.dynamic_outlines,
                other,
            ) && names::lookup(q.active_keys, other) == names::lookup(p.active_keys, other)
        }),
{
    names::law_remove_then_lookup(p.dynamic_outlines, name, name);
    names::law_remove_then_lookup(p.active_keys, name, name);
    names::law_remove_then_lookup(p.dynamic_outlines, name, other);
    names::law_remove_then_lookup(p.active_keys, name, other);
}

/// Registering the outline of an image is registering that of its bytes, and is
/// possible where the latter is. An image without pixels is refused, as its bytes
/// are unless an outline is cached with the same key.
pub proof fn law_image_is_its_bytes(
    p: PluginView,
    name: Seq<char>,
    image: SharedImage,
    size: (F32, F32),
    threshold: u8,
    epsilon: F32,
)
    ensures
        !model::blank(image) ==> p.with_image(name, image, size, threshold, epsilon)
            == p.with_dynamic_outline(
            name,
            model::image_sprite(image, size, threshold, epsilon),
        ),
        model::blank(image) ==> p.with_image(name, image, size, threshold, epsilon) is None,
        model::blank(image) && !p.cache.contains_key(
            model::image_sprite(image, size, threshold, epsilon).key(),
        ) ==> p.with_dynamic_outline(
            name,
            model::image_sprite(image, size, threshold, epsilon),
        ) is None,
{
    let sprite = model::image_sprite(image, size, threshold, epsilon);
    if model::blank(image) && !p.cache.contains_key(sprite.key()) {
        assert(sprite.dims.0 * sprite.dims.1 == 0) by (nonlinear_arith)
            requires
                sprite.dims.0 == 0 || sprite.dims.1 == 0,
        ;
        law_invisible_sprite_is_refused(p, name, name, sprite);
    }
}

/// A new member comes after the other members of its group, which is made if it
/// does not exist, and other groups stay as they are.
pub proof fn law_group_member_is_added(
    p: PluginView,
    group: Seq<char>,
    other: Seq<char>,
    name: Seq<char>,
    sprite: Sprite,
)
    requires
        p.with_group_member(group, name, sprite) is Some,
    ensures
        ({
            let q = p.with_group_member(group, name, sprite)->0;
            &&& q.members(group) == p.members(group).push(
                (name, p.built(sprite.key(), sprite)->0),
            )
            &&& other != group ==> q.members(other) == p.members(other)
        }),
{
    let o = p.built(sprite.key(), sprite)->0;
    let members = p.members(group).push((name, o));
    names::law_insert_then_lookup(p.groups, group, members, group);
    names::law_insert_then_lookup(p.groups, group, members, other);
}

/// A group that is cleared has no members, but is there if it was there before.
/// Other groups stay as they are.
pub proof fn law_cleared_group_stays(p: PluginView, group: Seq<char>, other: Seq<char>)
    ensures
        ({
            let q = p.with_group_cleared(group);
            &&& q.members(group) == Seq::<(Seq<char>, OutlineView)>::empty()
            &&& names::holds(q.groups, other) == names::holds(p.groups, other)
            &&& other != group ==> q.members(other) == p.members(other)
        }),
{
    let none = Seq::<(Seq<char>, OutlineView)>::empty();
    names::law_insert_then_lookup(p.groups, group, none, group);
    names::law_insert_then_lookup(p.groups, group, none, other);
}

/// A group that is removed is not there. Other groups stay as they are.
pub proof fn law_removed_group_is_gone(p: PluginView, group: Seq<char>, other: Seq<char>)
    requires
        p.consistent(),
    ensures
        ({
            let q = p.without_group(group);
            &&& !names::holds(q.groups, group)
            &&& other != group ==> names::lookup(q.groups, other) == names::lookup(
                p.groups,
                other,
            )
        }),
{
    names::law_remove_then_lookup(p.groups, group, group);
    names::law_remove_then_lookup(p.groups, group, other);
}

// ---- actions ----

proof fn lemma_stripped(prefix: Seq<char>, name: Seq<char>)
    ensures
        model::stripped(prefix + name, prefix) == Some(name),
{
    assert((prefix + name).take(prefix.len() as int) =~= prefix);
    assert((prefix + name).skip(prefix.len() as int) =~= name);
}

/// A text that differs from a prefix somewhere does not have it.
proof fn lemma_not_stripped(data: Seq<char>, prefix: Seq<char>, i: int)
    requires
        0 <= i < prefix.len(),
        i < data.len() ==> data[i] != prefix[i],
    ensures
        model::stripped(data, prefix) is None,
{
    if prefix.len() <= data.len() {
        assert(data.take(prefix.len() as int)[i] != prefix[i]);
    }
}

/// Every action does what the method for it does, with the name behind the colon.
pub proof fn law_actions_are_methods(p: PluginView, name: Seq<char>)
    ensures
        p.acting("register_dynamic:"@ + name) == Some(p.with_explicit_dynamic(name)),
        p.acting("unregister_terrain:"@ + name) == Some(p.without_terrain(name)),
        p.acting("unregister_dynamic_outline:"@ + name) == Some(
            p.without_dynamic_outline(name),
        ),
        p.acting("remove_group:"@ + name) == Some(p.without_group(name)),
        p.acting("rebuild:"@ + name) == Some(p.with_group_cleared(name)),
{
    reveal_strlit("register_dynamic:");
    reveal_strlit("unregister_terrain:");
    reveal_strlit("unregister_dynamic_outline:");
    reveal_strlit("remove_group:");
    reveal_strlit("rebuild:");
    let register = "register_dynamic:"@;
    let terrain = "unregister_terrain:"@;
    let outline = "unregister_dynamic_outline:"@;
    let remove = "remove_group:"@;
    let rebuild = "rebuild:"@;
    lemma_stripped(register, name);
    lemma_stripped(terrain, name);
    lemma_stripped(outline, name);
    lemma_stripped(remove, name);
    lemma_stripped(rebuild, name);
    lemma_not_stripped(terrain + name, register, 0);
    lemma_not_stripped(outline + name, register, 0);
    lemma_not_stripped(outline + name, terrain, 11);
    lemma_not_stripped(remove + name, register, 2);
    lemma_not_stripped(remove + name, terrain, 0);
    lemma_not_stripped(remove + name, outline, 0);
    lemma_not_stripped(rebuild + name, register, 2);
    lemma_not_stripped(rebuild + name, terrain, 0);
    lemma_not_stripped(rebuild + name, outline, 0);
    lemma_not_stripped(rebuild + name, remove, 2);
}

/// A command for an outline does what making sure of that outline does, and can be
/// carried out where that can be.
pub proof fn law_ensure_command_is_its_method(p: PluginView, name: Seq<char>, sprite: Sprite)
    ensures
        p.called(CallView::Ensure { name, sprite }) == p.ensuring_dynamic_outline(name, sprite),
        p.callable(CallView::Ensure { name, sprite }) <==> p.up_to_date(name, sprite)
            || p.buildable(sprite),
{
}

/// A command for an image does what the command for its bytes does, and can be
/// carried out where that can be. One for an image without pixels is refused.
pub proof fn law_pinned_image_is_its_bytes(
    p: PluginView,
    name: Seq<char>,
    image: SharedImage,
    size: (F32, F32),
    threshold: u8,
    epsilon: F32,
)
    ensures
        ({
            let sprite = model::image_sprite(image, size, threshold, epsilon);
            let pin = CallView::Pin { name, image, size, threshold, epsilon };
            let ensure = CallView::Ensure { name, sprite };
            &&& !model::blank(image) ==> p.called(pin) == p.called(ensure)
            &&& !model::blank(image) ==> (p.callable(pin) <==> p.callable(ensure))
            &&& model::blank(image) ==> p.callable(pin) && p.called(pin) is None
        }),
{
}

/// A command to remove an outline is always carried out, whether or not there is
/// one, and then there is neither an outline nor a key.
pub proof fn law_unregister_command_is_its_method(p: PluginView, name: Seq<char>)
    requires
        p.consistent(),
    ensures
        ({
            let call = CallView::Unregister { name };
            &&& p.callable(call)
            &&& p.called(call) == Some(p.without_dynamic_outline(name))
            &&& names::lookup(p.without_dynamic_outline(name).dynamic_outlines, name) is None
            &&& names::lookup(p.without_dynamic_outline(name).active_keys, name) is None
        }),
{
    law_unregistered_outline_is_gone(p, name, name);
}

// ---- collisions ----

/// Corrections do not touch objects with other names.
proof fn lemma_uncorrected(
    objects: Seq<(Seq<char>, GameObject)>,
    corrections: Seq<CorrectionView>,
    name: Seq<char>,
)
    requires
        forall|i: int| 0 <= i < corrections.len() ==> (#[trigger] corrections[i]).name != name,
    ensures
        names::lookup(model::corrected(objects, corrections), name) == names::lookup(
            objects,
            name,
        ),
    decreases corrections.len(),
{
    if corrections.len() > 0 {
        let rest = corrections.drop_last();
        assert forall|i: int| 0 <= i < rest.len() implies (#[trigger] rest[i]).name != name by {
            assert(rest[i] == corrections[i]);
        }
        lemma_uncorrected(objects, rest, name);
        let c = corrections.last();
        let before = model::corrected(objects, rest);
        assert(c == corrections[corrections.len() - 1]);
        if let Some(object) = names::lookup(before, c.name) {
            names::law_insert_then_lookup(before, c.name, model::moved(object, c), name);
        }
    }
}

/// Every correction is that of one of the names.
proof fn lemma_corrections(
    p: PluginView,
    list: Seq<Seq<char>>,
    objects: Seq<(Seq<char>, GameObject)>,
    i: int,
)
    requires
        0 <= i < p.corrections(list, objects).len(),
    ensures
        ({
            let c = p.corrections(list, objects)[i];
            list.contains(c.name) && p.correction(c.name, objects) == Some(c)
        }),
    decreases list.len(),
{
    let c = p.corrections(list, objects)[i];
    let rest = list.drop_last();
    if i < p.corrections(rest, objects).len() {
        lemma_corrections(p, rest, objects, i);
        let j = choose|j: int| 0 <= j < rest.len() && rest[j] == c.name;
        assert(list[j] == c.name);
    } else {
        assert(list[list.len() - 1] == c.name);
    }
}

/// An object that is not to be corrected stays as it is.
pub proof fn law_uncorrected_object_stays(p: PluginView, scene: SceneView, name: Seq<char>)
    requires
        p.correction(name, scene.objects) is None,
    ensures
        names::lookup(p.updated(scene).objects, name) == names::lookup(scene.objects, name),
{
    let corrections = p.corrections(scene.names, scene.objects);
    assert forall|i: int| 0 <= i < corrections.len() implies (#[trigger] corrections[i]).name
        != name by {
        lemma_corrections(p, scene.names, scene.objects, i);
    }
    lemma_uncorrected(scene.objects, corrections, name);
}

/// Obstacles, terrain and members of groups, stay where they are.
pub proof fn law_obstacles_stay(p: PluginView, scene: SceneView, name: Seq<char>)
    requires
        names::holds(p.obstacles(), name),
    ensures
        names::lookup(p.updated(scene).objects, name) == names::lookup(scene.objects, name),
{
    law_uncorrected_object_stays(p, scene, name);
}

/// Terrain and the members of groups are obstacles.
pub proof fn law_terrain_and_members_are_obstacles(
    p: PluginView,
    name: Seq<char>,
    group: Seq<char>,
)
    requires
        names::holds(p.terrain, name) || names::holds(p.members(group), name),
    ensures
        names::holds(p.obstacles(), name),
{
    names::lemma_holds_either(p.terrain, model::members_of(p.groups), name);
    if names::holds(p.members(group), name) {
        names::lemma_place(p.groups, group);
        model::lemma_members_of(p.groups, names::place(p.groups, group), name);
    }
}

/// Platforms stay where they are, unless they were added as dynamic.
pub proof fn law_platforms_stay(
    p: PluginView,
    scene: SceneView,
    name: Seq<char>,
    object: GameObject,
)
    requires
        names::lookup(scene.objects, name) == Some(object),
        object.is_platform,
        !p.explicit_dynamic.contains(name),
    ensures
        names::lookup(p.updated(scene).objects, name) == Some(object),
{
    law_uncorrected_object_stays(p, scene, name);
}

/// An object whose name is not gone through stays as it is.
pub proof fn law_unlisted_object_stays(p: PluginView, scene: SceneView, name: Seq<char>)
    requires
        !scene.names.contains(name),
    ensures
        names::lookup(p.updated(scene).objects, name) == names::lookup(scene.objects, name),
{
    let corrections = p.corrections(scene.names, scene.objects);
    assert forall|i: int| 0 <= i < corrections.len() implies (#[trigger] corrections[i]).name
        != name by {
        lemma_corrections(p, scene.names, scene.objects, i);
    }
    lemma_uncorrected(scene.objects, corrections, name);
}

/// An object that is to be corrected, and whose name is gone through once, is moved
/// by its correction, which depends only on the scene before the update.
pub proof fn law_corrected_object_moves(
    p: PluginView,
    scene: SceneView,
    name: Seq<char>,
    c: CorrectionView,
)
    requires
        scene.names.contains(name),
        scene.names.no_duplicates(),
        p.correction(name, scene.objects) == Some(c),
    ensures
        names::lookup(p.updated(scene).objects, name) == Some(
            model::moved(names::lookup(scene.objects, name)->0, c),
        ),
{
    lemma_corrected_object(p, scene.names, scene.objects, name, c);
}

proof fn lemma_corrected_object(
    p: PluginView,
    list: Seq<Seq<char>>,
    objects: Seq<(Seq<char>, GameObject)>,
    name: Seq<char>,
    c: CorrectionView,
)
    requires
        list.contains(name),
        list.no_duplicates(),
        p.correction(name, objects) == Some(c),
    ensures
        names::lookup(model::corrected(objects, p.corrections(list, objects)), name) == Some(
            model::moved(names::lookup(objects, name)->0, c),
        ),
    decreases list.len(),
{
    let rest = list.drop_last();
    let before = p.corrections(rest, objects);
    let so_far = model::corrected(objects, before);
    let all = p.corrections(list, objects);
    if list.last() == name {
        assert forall|i: int| 0 <= i < before.len() implies (#[trigger] before[i]).name != name by {
            lemma_corrections(p, rest, objects, i);
            if before[i].name == name {
                let j = choose|j: int| 0 <= j < rest.len() && rest[j] == name;
                assert(list[j] == list[list.len() - 1]);
            }
        }
        lemma_uncorrected(objects, before, name);
        assert(all =~= before.push(c));
        assert(all.drop_last() =~= before);
        names::law_insert_then_lookup(
            so_far,
            name,
            model::moved(names::lookup(so_far, name)->0, c),
            name,
        );
    } else {
        let j = choose|j: int| 0 <= j < list.len() && list[j] == name;
        assert(rest[j] == name);
        lemma_corrected_object(p, rest, objects, name, c);
        if let Some(d) = p.correction(list.last(), objects) {
            assert(all =~= before.push(d));
            assert(all.drop_last() =~= before);
            if let Some(object) = names::lookup(so_far, d.name) {
                names::law_insert_then_lookup(so_far, d.name, model::moved(object, d), name);
            }
        }
    }
}

/// An update changes positions and momenta, and nothing else: no object comes,
/// goes, turns, or becomes larger, and the names stay as they are.
pub proof fn law_update_changes_only_motion(p: PluginView, scene: SceneView, name: Seq<char>)
    ensures
        p.updated(scene).names == scene.names,
        match (
            names::lookup(scene.objects, name),
            names::lookup(p.updated(scene).objects, name),
        ) {
            (Some(a), Some(b)) => a.size == b.size && a.rotation == b.rotation && a.is_platform
                == b.is_platform,
            (None, None) => true,
            _ => false,
        },
{
    lemma_only_motion(scene.objects, p.corrections(scene.names, scene.objects), name);
}

proof fn lemma_only_motion(
    objects: Seq<(Seq<char>, GameObject)>,
    corrections: Seq<CorrectionView>,
    name: Seq<char>,
)
    ensures
        match (
            names::lookup(objects, name),
            names::lookup(model::corrected(objects, corrections), name),
        ) {
            (Some(a), Some(b)) => a.size == b.size && a.rotation == b.rotation && a.is_platform
                == b.is_platform,
            (None, None) => true,
            _ => false,
        },
    decreases corrections.len(),
{
    if corrections.len() > 0 {
        let rest = corrections.drop_last();
        lemma_only_motion(objects, rest, name);
        let c = corrections.last();
        let before = model::corrected(objects, rest);
        if let Some(object) = names::lookup(before, c.name) {
            names::law_insert_then_lookup(before, c.name, model::moved(object, c), name);
        }
    }
}

/// An obstacle does not push an object: it is not in the scene, or does not
/// overlap it.
pub open spec fn unpushed(
    object: GameObject,
    own: Option<OutlineView>,
    objects: Seq<(Seq<char>, GameObject)>,
    obstacle: (Seq<char>, OutlineView),
) -> bool {
    match names::lookup(objects, obstacle.0) {
        Some(o) => model::push_from(object, own, o, obstacle.1) is None,
        None => true,
    }
}

/// Where no obstacle overlaps an object, it is not corrected.
pub proof fn law_free_object_is_not_corrected(
    p: PluginView,
    objects: Seq<(Seq<char>, GameObject)>,
    name: Seq<char>,
    object: GameObject,
)
    requires
        names::lookup(objects, name) == Some(object),
        forall|i: int|
            #![trigger p.obstacles()[i]]
            0 <= i < p.obstacles().len() ==> unpushed(
                object,
                names::lookup(p.dynamic_outlines, name),
                objects,
                p.obstacles()[i],
            ),
    ensures
        p.correction(name, objects) is None,
{
    let own = names::lookup(p.dynamic_outlines, name);
    let all = p.obstacles();
    let n = p.terrain.len() as int;
    let members = model::members_of(p.groups);
    assert forall|i: int| #![trigger p.terrain[i]] 0 <= i < n implies unpushed(
        object,
        own,
        objects,
        p.terrain[i],
    ) by {
        assert(all[i] == p.terrain[i]);
    }
    assert forall|i: int| #![trigger members[i]] 0 <= i < members.len() implies unpushed(
        object,
        own,
        objects,
        members[i],
    ) by {
        assert(all[n + i] == members[i]);
    }
    lemma_unpushed(object, own, objects, p.terrain, Vec2::spec_zero());
    lemma_unpushed_by_groups(object, own, objects, p.groups, Vec2::spec_zero());
    let zero = F32 { bits: 0 };
    assert(zero.mag() == 0);
    float_laws::law_zero_sums(zero);
    float_laws::law_zero_is_zero(zero);
    float_laws::law_not_negative(F32 { bits: model::NO_PUSH });
    reveal(F32::spec_lt);
}

proof fn lemma_unpushed(
    object: GameObject,
    own: Option<OutlineView>,
    objects: Seq<(Seq<char>, GameObject)>,
    obstacles: Seq<(Seq<char>, OutlineView)>,
    start: Vec2,
)
    requires
        forall|i: int|
            #![trigger obstacles[i]]
            0 <= i < obstacles.len() ==> unpushed(object, own, objects, obstacles[i]),
    ensures
        model::pushed_by(object, own, objects, obstacles, start) == start,
    decreases obstacles.len(),
{
    if obstacles.len() > 0 {
        let rest = obstacles.drop_last();
        assert forall|i: int| #![trigger rest[i]] 0 <= i < rest.len() implies unpushed(
            object,
            own,
            objects,
            rest[i],
        ) by {
            assert(rest[i] == obstacles[i]);
        }
        lemma_unpushed(object, own, objects, rest, start);
        assert(obstacles.last() == obstacles[obstacles.len() - 1]);
    }
}

proof fn lemma_unpushed_by_group(
    object: GameObject,
    own: Option<OutlineView>,
    objects: Seq<(Seq<char>, GameObject)>,
    members: Seq<(Seq<char>, OutlineView)>,
)
    requires
        forall|i: int|
            #![trigger members[i]]
            0 <= i < members.len() ==> unpushed(object, own, objects, members[i]),
    ensures
        model::group_push(object, own, objects, members) is None,
{
    let n = model::shapes(object, own).len() as int;
    assert forall|i: int, j: int|
        0 <= i < n && 0 <= j < members.len() implies #[trigger] model::member_push(
        object,
        own,
        i,
        objects,
        members[j],
    ) is None by {
        assert(unpushed(object, own, objects, members[j]));
        group_laws::lemma_apart_parts(object, own, i, objects, members[j]);
    }
    group_laws::law_group_pushes_what_overlaps(object, own, objects, members);
}

proof fn lemma_unpushed_by_groups(
    object: GameObject,
    own: Option<OutlineView>,
    objects: Seq<(Seq<char>, GameObject)>,
    groups: Seq<(Seq<char>, Seq<(Seq<char>, OutlineView)>)>,
    start: Vec2,
)
    requires
        forall|i: int|
            #![trigger model::members_of(groups)[i]]
            0 <= i < model::members_of(groups).len() ==> unpushed(
                object,
                own,
                objects,
                model::members_of(groups)[i],
            ),
    ensures
        model::pushed_by_groups(object, own, objects, groups, start) == start,
    decreases groups.len(),
{
    if groups.len() > 0 {
        let all = model::members_of(groups);
        let before = model::members_of(groups.drop_last());
        let members = groups.last().1;
        assert forall|i: int| #![trigger before[i]] 0 <= i < before.len() implies unpushed(
            object,
            own,
            objects,
            before[i],
        ) by {
            assert(all[i] == before[i]);
        }
        assert forall|i: int| #![trigger members[i]] 0 <= i < members.len() implies unpushed(
            object,
            own,
            objects,
            members[i],
        ) by {
            assert(all[before.len() + i] == members[i]);
        }
        lemma_unpushed_by_groups(object, own, objects, groups.drop_last(), start);
        lemma_unpushed_by_group(object, own, objects, members);
    }
}

/// An object that already moves with the push keeps its momentum.
pub proof fn law_momentum_with_push_is_kept(object: GameObject, push: Vec2, restitution: F32)
    requires
        !object.momentum.x.nan(),
        !object.momentum.y.nan(),
        !object.momentum.spec_dot(
            (Vec2 {
                x: push.x.spec_div(push.spec_length()),
                y: push.y.spec_div(push.spec_length()),
            }),
        ).spec_lt(F32 { bits: 0 }),
    ensures
        model::moved(
            object,
            (CorrectionView {
                name: Seq::empty(),
                pos_delta: push,
                mom_delta: model::cancelled(push, object.momentum, restitution),
            }),
        ).momentum == object.momentum,
{
    float_laws::law_minus_zero(object.momentum.x);
    float_laws::law_minus_zero(object.momentum.y);
}

} // verus!
