//! Laws on the push on an object and on what becomes of its momentum.

use crate::float::F32;
use crate::float_laws;
use crate::laws;
use crate::model;
use crate::model::PluginView;
use crate::names;
use crate::outline::OutlineView;
use crate::scene::CorrectionView;
use crate::scene::GameObject;
use crate::scene::SceneView;
use crate::simplify;
use crate::vec2::Vec2;
use vstd::prelude::*;

verus! {

// ---- what adds up ----

/// Where there is neither terrain nor a group, nothing is pushed.
pub proof fn law_nothing_pushes_nothing(
    p: PluginView,
    name: Seq<char>,
    object: GameObject,
    objects: Seq<(Seq<char>, GameObject)>,
)
    requires
        p.terrain.len() == 0,
        p.groups.len() == 0,
    ensures
        p.push_on(name, object, objects).x.bits == 0,
        p.push_on(name, object, objects).y.bits == 0,
{
}

/// Every terrain counts: with one more terrain that is in the scene and overlaps
/// an object, the push on the object is what it was before, plus the push of that
/// terrain alone. Terrain that is not in the scene or does not overlap changes
/// nothing.
pub proof fn law_terrain_pushes_add_up(
    p: PluginView,
    terrain: Seq<char>,
    outline: OutlineView,
    name: Seq<char>,
    object: GameObject,
    objects: Seq<(Seq<char>, GameObject)>,
)
    requires
        p.groups.len() == 0,
    ensures
        ({
            let q = PluginView { terrain: p.terrain.push((terrain, outline)), ..p };
            let before = p.push_on(name, object, objects);
            let after = q.push_on(name, object, objects);
            match names::lookup(objects, terrain) {
                Some(obstacle) => match model::push_from(
                    object,
                    names::lookup(p.dynamic_outlines, name),
                    obstacle,
                    outline,
                ) {
                    Some(v) => after.x == before.x.spec_add(v.x) && after.y == before.y.spec_add(
                        v.y,
                    ),
                    None => after == before,
                },
                None => after == before,
            }
        }),
{
    let more = p.terrain.push((terrain, outline));
    assert(more.drop_last() =~= p.terrain);
    assert(more.last() == (terrain, outline));
}

/// Two terrains that both overlap an object push it by the sum of what each of
/// them pushes it by alone.
pub proof fn law_two_terrains_push_together(
    p: PluginView,
    name: Seq<char>,
    object: GameObject,
    objects: Seq<(Seq<char>, GameObject)>,
    a: GameObject,
    b: GameObject,
    u: Vec2,
    v: Vec2,
)
    requires
        p.groups.len() == 0,
        p.terrain.len() == 2,
        names::lookup(objects, p.terrain[0].0) == Some(a),
        names::lookup(objects, p.terrain[1].0) == Some(b),
        model::push_from(object, names::lookup(p.dynamic_outlines, name), a, p.terrain[0].1)
            == Some(u),
        model::push_from(object, names::lookup(p.dynamic_outlines, name), b, p.terrain[1].1)
            == Some(v),
    ensures
        p.push_on(name, object, objects).x == (F32 { bits: 0 }).spec_add(u.x).spec_add(v.x),
        p.push_on(name, object, objects).y == (F32 { bits: 0 }).spec_add(u.y).spec_add(v.y),
{
    let none = PluginView { terrain: Seq::empty(), ..p };
    let one = PluginView { terrain: none.terrain.push(p.terrain[0]), ..p };
    law_nothing_pushes_nothing(none, name, object, objects);
    law_terrain_pushes_add_up(none, p.terrain[0].0, p.terrain[0].1, name, object, objects);
    law_terrain_pushes_add_up(one, p.terrain[1].0, p.terrain[1].1, name, object, objects);
    assert(one.terrain.push(p.terrain[1]) =~= p.terrain);
}

/// Every group counts: with one more group, the push on an object is what it was
/// before, plus the push of that group, if it has one.
pub proof fn law_group_pushes_add_up(
    p: PluginView,
    group: Seq<char>,
    members: Seq<(Seq<char>, OutlineView)>,
    name: Seq<char>,
    object: GameObject,
    objects: Seq<(Seq<char>, GameObject)>,
)
    ensures
        ({
            let q = PluginView { groups: p.groups.push((group, members)), ..p };
            let before = p.push_on(name, object, objects);
            let after = q.push_on(name, object, objects);
            match model::group_push(
                object,
                names::lookup(p.dynamic_outlines, name),
                objects,
                members,
            ) {
                Some(v) => after.x == before.x.spec_add(v.x) && after.y == before.y.spec_add(v.y),
                None => after == before,
            }
        }),
{
    let more = p.groups.push((group, members));
    assert(more.drop_last() =~= p.groups);
    assert(more.last() == (group, members));
}

// ---- who is moved, and how ----

/// Moved are the objects in the scene that are neither terrain nor members of a
/// group, nor platforms that were not added as dynamic.
pub proof fn law_who_is_moved(p: PluginView, name: Seq<char>, object: GameObject)
    ensures
        p.is_dynamic(name, object) <==> {
            &&& forall|i: int| 0 <= i < p.terrain.len() ==> #[trigger] p.terrain[i].0 != name
            &&& forall|g: int, i: int|
                #![trigger p.groups[g].1[i]]
                0 <= g < p.groups.len() && 0 <= i < p.groups[g].1.len() ==> p.groups[g].1[i].0
                    != name
            &&& object.is_platform ==> exists|i: int|
                0 <= i < p.explicit_dynamic.len() && p.explicit_dynamic[i] == name
        },
{
    let all = p.obstacles();
    let members = model::members_of(p.groups);
    names::lemma_holds_either(p.terrain, members, name);
    names::lemma_holds(p.terrain, name);
    names::lemma_holds(members, name);
    lemma_held_by_member(p.groups, name);
    assert forall|g: int, i: int|
        #![trigger p.groups[g].1[i]]
        0 <= g < p.groups.len() && 0 <= i < p.groups[g].1.len() && p.groups[g].1[i].0
            == name implies names::holds(members, name) by {
        names::lemma_holds(p.groups[g].1, name);
        model::lemma_members_of(p.groups, g, name);
    }
}

/// A name that members of groups have is that of one of them.
proof fn lemma_held_by_member(
    groups: Seq<(Seq<char>, Seq<(Seq<char>, OutlineView)>)>,
    name: Seq<char>,
)
    ensures
        names::holds(model::members_of(groups), name) ==> exists|g: int, i: int|
            #![trigger groups[g].1[i]]
            0 <= g < groups.len() && 0 <= i < groups[g].1.len() && groups[g].1[i].0 == name,
    decreases groups.len(),
{
    if groups.len() == 0 {
        names::lemma_holds(model::members_of(groups), name);
    } else {
        let rest = groups.drop_last();
        lemma_held_by_member(rest, name);
        names::lemma_holds_either(model::members_of(rest), groups.last().1, name);
        names::lemma_holds(groups.last().1, name);
        if names::holds(groups.last().1, name) {
            let i = choose|i: int|
                0 <= i < groups.last().1.len() && #[trigger] groups.last().1[i].0 == name;
            assert(groups[groups.len() - 1].1[i].0 == name);
        } else if names::holds(model::members_of(rest), name) {
            let (g, i) = choose|g: int, i: int|
                #![trigger rest[g].1[i]]
                0 <= g < rest.len() && 0 <= i < rest[g].1.len() && rest[g].1[i].0 == name;
            assert(groups[g].1[i].0 == name);
        }
    }
}

/// In an update, an object that is to be moved goes by the push on it, in both
/// coordinates, and loses the momentum that is taken for that push; but if the
/// square of the push is not more than 1e-10 it stays as it is.
pub proof fn law_object_moves_by_push(
    p: PluginView,
    scene: SceneView,
    name: Seq<char>,
    object: GameObject,
)
    requires
        scene.names.contains(name),
        scene.names.no_duplicates(),
        names::lookup(scene.objects, name) == Some(object),
        p.is_dynamic(name, object),
    ensures
        ({
            let push = p.push_on(name, object, scene.objects);
            let taken = model::cancelled(push, object.momentum, p.restitution);
            let after = names::lookup(p.updated(scene).objects, name);
            if (F32 { bits: model::NO_PUSH }).spec_lt(
                push.x.spec_mul(push.x).spec_add(push.y.spec_mul(push.y)),
            ) {
                &&& after is Some
                &&& after->0.position.x == object.position.x.spec_add(push.x)
                &&& after->0.position.y == object.position.y.spec_add(push.y)
                &&& after->0.momentum.x == object.momentum.x.spec_sub(taken.x)
                &&& after->0.momentum.y == object.momentum.y.spec_sub(taken.y)
                &&& after->0.size == object.size
                &&& after->0.rotation == object.rotation
                &&& after->0.is_platform == object.is_platform
            } else {
                after == Some(object)
            }
        }),
{
    match p.correction(name, scene.objects) {
        Some(c) => {
            laws::law_corrected_object_moves(p, scene, name, c);
        },
        None => {
            laws::law_uncorrected_object_stays(p, scene, name);
        },
    }
}

/// What is to be changed is found for one name after the other, from the same
/// objects.
pub proof fn law_corrections_are_found_in_turn(
    p: PluginView,
    list: Seq<Seq<char>>,
    name: Seq<char>,
    objects: Seq<(Seq<char>, GameObject)>,
)
    ensures
        p.corrections(Seq::empty(), objects).len() == 0,
        p.corrections(list.push(name), objects) == match p.correction(name, objects) {
            Some(c) => p.corrections(list, objects).push(c),
            None => p.corrections(list, objects),
        },
{
    assert(list.push(name).drop_last() =~= list);
}

/// Changes are made one after the other, each of the object that it names, and of
/// no other.
pub proof fn law_corrections_are_made_in_turn(
    objects: Seq<(Seq<char>, GameObject)>,
    list: Seq<CorrectionView>,
    c: CorrectionView,
    other: Seq<char>,
)
    ensures
        model::corrected(objects, Seq::empty()) == objects,
        ({
            let before = names::lookup(model::corrected(objects, list), other);
            let after = names::lookup(model::corrected(objects, list.push(c)), other);
            match before {
                Some(o) if other == c.name => {
                    &&& after is Some
                    &&& after->0.position.x == o.position.x.spec_add(c.pos_delta.x)
                    &&& after->0.position.y == o.position.y.spec_add(c.pos_delta.y)
                    &&& after->0.momentum.x == o.momentum.x.spec_sub(c.mom_delta.x)
                    &&& after->0.momentum.y == o.momentum.y.spec_sub(c.mom_delta.y)
                    &&& after->0.size == o.size
                    &&& after->0.rotation == o.rotation
                    &&& after->0.is_platform == o.is_platform
                },
                _ => after == before,
            }
        }),
{
    assert(list.push(c).drop_last() =~= list);
    let so_far = model::corrected(objects, list);
    if let Some(o) = names::lookup(so_far, c.name) {
        names::law_insert_then_lookup(so_far, c.name, model::moved(o, c), other);
    }
}

// ---- momentum ----

/// A vector with its coordinates exchanged.
pub open spec fn swapped(v: Vec2) -> Vec2 {
    Vec2 { x: v.y, y: v.x }
}

/// The two axes count alike: exchanging the coordinates of the push and of the
/// momentum exchanges those of the momentum that is taken.
pub proof fn law_axes_count_alike(push: Vec2, momentum: Vec2, restitution: F32)
    ensures
        model::cancelled(swapped(push), swapped(momentum), restitution) == swapped(
            model::cancelled(push, momentum, restitution),
        ),
{
    float_laws::law_sum_commutes(push.x.spec_mul(push.x), push.y.spec_mul(push.y));
    let length = push.spec_length();
    let n = Vec2 { x: push.x.spec_div(length), y: push.y.spec_div(length) };
    float_laws::law_sum_commutes(momentum.x.spec_mul(n.x), momentum.y.spec_mul(n.y));
}

/// The momentum that is taken is parallel to the push. Where the momentum has a
/// part `along` the direction of the push that is negative, `along` and
/// `restitution` times `along` are taken in that direction, in both coordinates
/// alike; otherwise nothing is.
pub proof fn law_taken_momentum_is_parallel_to_push(
    push: Vec2,
    momentum: Vec2,
    restitution: F32,
    n: Vec2,
    along: F32,
)
    requires
        n.x == push.x.spec_div(push.spec_length()),
        n.y == push.y.spec_div(push.spec_length()),
        along == momentum.x.spec_mul(n.x).spec_add(momentum.y.spec_mul(n.y)),
    ensures
        ({
            let taken = model::cancelled(push, momentum, restitution);
            let amount = along.spec_mul((F32 { bits: simplify::ONE }).spec_add(restitution));
            if along.spec_lt(F32 { bits: 0 }) {
                taken.x == n.x.spec_mul(amount) && taken.y == n.y.spec_mul(amount)
            } else {
                taken.x.bits == 0 && taken.y.bits == 0
            }
        }),
{
}

} // verus!
