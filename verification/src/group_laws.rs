//! Laws of groups: their members are one mesh, and nothing shows of the seams
//! between them.

use crate::float;
use crate::float::F32;
use crate::float_laws;
use crate::model;
use crate::model::PluginView;
use crate::names;
use crate::outline::OutlineView;
use crate::sat;
use crate::scene::GameObject;
use crate::vec2::Vec2;
use vstd::prelude::*;

verus! {

// ---- what is pushed at all ----

/// A member that does not push an object does not push any of its polygons.
pub proof fn lemma_apart_parts(
    object: GameObject,
    own: Option<OutlineView>,
    i: int,
    objects: Seq<(Seq<char>, GameObject)>,
    member: (Seq<char>, OutlineView),
)
    requires
        0 <= i < model::shapes(object, own).len(),
        names::lookup(objects, member.0) matches Some(o) ==> model::push_from(
            object,
            own,
            o,
            member.1,
        ) is None,
    ensures
        model::member_push(object, own, i, objects, member) is None,
{
    let polys = model::shapes(object, own);
    let hulls = model::member_hulls(objects, member);
    if own is Some {
        sat::law_no_push_without_overlap(polys, hulls);
        sat::lemma_row_apart(None, polys[i], hulls);
        if names::lookup(objects, member.0) is Some {
            assert forall|j: int| 0 <= j < hulls.len() implies sat::contact(
                polys[i],
                #[trigger] hulls[j],
            ) is None by {
                assert(sat::contact(polys[i], hulls[j]) is None);
            }
        }
    }
}

/// Of the first `n` members that push the polygon `i`, one whose push comes before
/// those of the others; -1 if there is none.
proof fn lemma_first_push(
    object: GameObject,
    own: Option<OutlineView>,
    i: int,
    objects: Seq<(Seq<char>, GameObject)>,
    members: Seq<(Seq<char>, OutlineView)>,
    n: int,
) -> (t: int)
    requires
        0 <= n <= members.len(),
    ensures
        -1 <= t < n,
        t == -1 ==> forall|j: int|
            0 <= j < n ==> #[trigger] model::member_push(object, own, i, objects, members[j])
                is None,
        t >= 0 ==> model::member_push(object, own, i, objects, members[t]) is Some,
        t >= 0 ==> forall|j: int|
            0 <= j < n && j != t ==> (#[trigger] model::member_push(
                object,
                own,
                i,
                objects,
                members[j],
            ) matches Some(b) ==> model::outranks(
                model::member_push(object, own, i, objects, members[t])->0,
                t,
                b,
                j,
            )),
    decreases n,
{
    if n == 0 {
        -1
    } else {
        let t = lemma_first_push(object, own, i, objects, members, n - 1);
        match model::member_push(object, own, i, objects, members[n - 1]) {
            None => t,
            Some(b) => if t >= 0 && model::outranks(
                model::member_push(object, own, i, objects, members[t])->0,
                t,
                b,
                n - 1,
            ) {
                t
            } else {
                n - 1
            },
        }
    }
}

/// The push that comes before all others is needed.
proof fn lemma_first_push_is_needed(
    object: GameObject,
    own: Option<OutlineView>,
    i: int,
    objects: Seq<(Seq<char>, GameObject)>,
    members: Seq<(Seq<char>, OutlineView)>,
    t: int,
)
    requires
        0 <= t < members.len(),
        model::member_push(object, own, i, objects, members[t]) is Some,
        forall|j: int|
            0 <= j < members.len() && j != t ==> (#[trigger] model::member_push(
                object,
                own,
                i,
                objects,
                members[j],
            ) matches Some(b) ==> model::outranks(
                model::member_push(object, own, i, objects, members[t])->0,
                t,
                b,
                j,
            )),
    ensures
        !model::needless(object, own, i, objects, members, t),
{
    assert forall|j: int| 0 <= j < members.len() implies !#[trigger] model::replaces(
        object,
        own,
        i,
        objects,
        members,
        j,
        t,
    ) by {
        if j != t {
            if let Some(b) = model::member_push(object, own, i, objects, members[j]) {
                assert(model::outranks(
                    model::member_push(object, own, i, objects, members[t])->0,
                    t,
                    b,
                    j,
                ));
            }
        }
    }
}

/// A sum of pushes is there if one of them is needed.
proof fn lemma_part_is_there(
    object: GameObject,
    own: Option<OutlineView>,
    i: int,
    objects: Seq<(Seq<char>, GameObject)>,
    members: Seq<(Seq<char>, OutlineView)>,
    k: int,
    t: int,
)
    requires
        0 <= t < k,
        model::member_push(object, own, i, objects, members[t]) is Some,
        !model::needless(object, own, i, objects, members, t),
    ensures
        model::part_push(object, own, i, objects, members, k) is Some,
    decreases k,
{
    if t < k - 1 {
        lemma_part_is_there(object, own, i, objects, members, k - 1, t);
    }
}

proof fn lemma_part_is_not_there(
    object: GameObject,
    own: Option<OutlineView>,
    i: int,
    objects: Seq<(Seq<char>, GameObject)>,
    members: Seq<(Seq<char>, OutlineView)>,
    k: int,
)
    requires
        k <= members.len(),
        forall|j: int|
            0 <= j < members.len() ==> #[trigger] model::member_push(
                object,
                own,
                i,
                objects,
                members[j],
            ) is None,
    ensures
        model::part_push(object, own, i, objects, members, k) is None,
    decreases k,
{
    if k > 0 {
        lemma_part_is_not_there(object, own, i, objects, members, k - 1);
        assert(model::member_push(object, own, i, objects, members[k - 1]) is None);
    }
}

/// A group pushes an object if and only if one of its members overlaps one of the
/// polygons of the object.
pub proof fn law_group_pushes_what_overlaps(
    object: GameObject,
    own: Option<OutlineView>,
    objects: Seq<(Seq<char>, GameObject)>,
    members: Seq<(Seq<char>, OutlineView)>,
)
    ensures
        model::group_push(object, own, objects, members) is None <==> forall|i: int, j: int|
            0 <= i < model::shapes(object, own).len() && 0 <= j < members.len()
                ==> #[trigger] model::member_push(object, own, i, objects, members[j]) is None,
{
    lemma_parts_push(object, own, objects, members, model::shapes(object, own).len() as int);
}

proof fn lemma_parts_push(
    object: GameObject,
    own: Option<OutlineView>,
    objects: Seq<(Seq<char>, GameObject)>,
    members: Seq<(Seq<char>, OutlineView)>,
    n: int,
)
    ensures
        model::parts_push(object, own, objects, members, n) is None <==> forall|i: int, j: int|
            0 <= i < n && 0 <= j < members.len() ==> #[trigger] model::member_push(
                object,
                own,
                i,
                objects,
                members[j],
            ) is None,
    decreases n,
{
    if n > 0 {
        lemma_parts_push(object, own, objects, members, n - 1);
        let t = lemma_first_push(
            object,
            own,
            n - 1,
            objects,
            members,
            members.len() as int,
        );
        if t >= 0 {
            lemma_first_push_is_needed(object, own, n - 1, objects, members, t);
            lemma_part_is_there(
                object,
                own,
                n - 1,
                objects,
                members,
                members.len() as int,
                t,
            );
        } else {
            lemma_part_is_not_there(
                object,
                own,
                n - 1,
                objects,
                members,
                members.len() as int,
            );
        }
    }
}

// ---- one push for several members ----

/// If one push makes those of all other members needless, it is the only one.
proof fn lemma_one_push(
    object: GameObject,
    own: Option<OutlineView>,
    i: int,
    objects: Seq<(Seq<char>, GameObject)>,
    members: Seq<(Seq<char>, OutlineView)>,
    t: int,
    k: int,
)
    requires
        0 <= t < members.len(),
        k <= members.len(),
        model::member_push(object, own, i, objects, members[t]) is Some,
        forall|j: int|
            0 <= j < members.len() && j != t ==> #[trigger] model::member_push(
                object,
                own,
                i,
                objects,
                members[j],
            ) is None || model::replaces(object, own, i, objects, members, t, j),
    ensures
        model::part_push(object, own, i, objects, members, k) == if t < k {
            model::member_push(object, own, i, objects, members[t])
        } else {
            None
        },
    decreases k,
{
    if k > 0 {
        lemma_one_push(object, own, i, objects, members, t, k - 1);
        if k - 1 == t {
            assert forall|j: int|
                0 <= j < members.len() && j != t implies (#[trigger] model::member_push(
                object,
                own,
                i,
                objects,
                members[j],
            ) matches Some(b) ==> model::outranks(
                model::member_push(object, own, i, objects, members[t])->0,
                t,
                b,
                j,
            )) by {}
            lemma_first_push_is_needed(object, own, i, objects, members, t);
        } else {
            assert(model::member_push(object, own, i, objects, members[k - 1]) is None
                || model::replaces(object, own, i, objects, members, t, k - 1));
        }
    }
}

/// Where one member pushes a polygon of an object the farthest, and that takes the
/// polygon out of all other members too, the group pushes it as that member does
/// alone: the side of a neighbour that the polygon has sunk past does not matter.
pub proof fn law_longest_push_suffices(
    object: GameObject,
    own: Option<OutlineView>,
    i: int,
    objects: Seq<(Seq<char>, GameObject)>,
    members: Seq<(Seq<char>, OutlineView)>,
    t: int,
    v: Vec2,
)
    requires
        0 <= t < members.len(),
        model::member_push(object, own, i, objects, members[t]) == Some(v),
        forall|j: int|
            0 <= j < members.len() && j != t ==> (#[trigger] model::member_push(
                object,
                own,
                i,
                objects,
                members[j],
            ) matches Some(b) ==> model::outranks(v, t, b, j) && model::member_push(
                model::displaced(object, v),
                own,
                i,
                objects,
                members[j],
            ) is None),
    ensures
        model::part_push(object, own, i, objects, members, members.len() as int) == Some(v),
{
    lemma_one_push(object, own, i, objects, members, t, members.len() as int);
}

/// Where all members that push a polygon push it in the same way, the group pushes
/// it in that way, and once.
pub proof fn law_same_pushes_count_once(
    object: GameObject,
    own: Option<OutlineView>,
    i: int,
    objects: Seq<(Seq<char>, GameObject)>,
    members: Seq<(Seq<char>, OutlineView)>,
    k: int,
)
    requires
        0 <= k < members.len(),
        forall|j: int|
            0 <= j < members.len() ==> (#[trigger] model::member_push(
                object,
                own,
                i,
                objects,
                members[j],
            ) matches Some(v) ==> model::member_push(object, own, i, objects, members[k]) == Some(
                v,
            )),
    ensures
        model::part_push(object, own, i, objects, members, members.len() as int)
            == model::member_push(object, own, i, objects, members[k]),
{
    let t = lemma_first_push(object, own, i, objects, members, members.len() as int);
    let same = model::member_push(object, own, i, objects, members[k]);
    if t >= 0 {
        assert(model::member_push(object, own, i, objects, members[t]) == same);
        assert forall|j: int| 0 <= j < members.len() && j != t implies
            #[trigger] model::member_push(object, own, i, objects, members[j]) is None
            || model::replaces(object, own, i, objects, members, t, j) by {}
        lemma_one_push(object, own, i, objects, members, t, members.len() as int);
    } else {
        lemma_part_is_not_there(object, own, i, objects, members, members.len() as int);
    }
}

// ---- seams ----

/// The push of a group with one member on a polygon is that of the member.
proof fn lemma_part_of_one(
    object: GameObject,
    own: Option<OutlineView>,
    i: int,
    objects: Seq<(Seq<char>, GameObject)>,
    member: (Seq<char>, OutlineView),
)
    ensures
        model::part_push(object, own, i, objects, seq![member], 1) == model::member_push(
            object,
            own,
            i,
            objects,
            member,
        ),
{
    let members = seq![member];
    assert(members[0] == member);
    law_same_pushes_count_once(object, own, i, objects, members, 0);
}

/// The pushes of hulls on the first `n` polygons of an object, added up.
pub open spec fn push_of_parts(
    object: GameObject,
    own: Option<OutlineView>,
    hulls: Seq<Seq<Vec2>>,
    n: int,
) -> Option<Vec2>
    decreases n,
{
    if n <= 0 {
        None
    } else {
        model::joined(
            push_of_parts(object, own, hulls, n - 1),
            model::shape_push(own is None, model::shapes(object, own)[n - 1], hulls),
        )
    }
}

/// A group acts like one tile that pushes every polygon of the object as the
/// members of the group that it overlaps do.
pub proof fn law_group_is_like_one_tile(
    object: GameObject,
    own: Option<OutlineView>,
    objects: Seq<(Seq<char>, GameObject)>,
    members: Seq<(Seq<char>, OutlineView)>,
    tile: Seq<Seq<Vec2>>,
)
    requires
        forall|i: int, j: int|
            0 <= i < model::shapes(object, own).len() && 0 <= j < members.len() ==> (
            #[trigger] model::member_push(object, own, i, objects, members[j]) matches Some(v)
                ==> model::shape_push(own is None, model::shapes(object, own)[i], tile) == Some(v)),
        forall|i: int|
            0 <= i < model::shapes(object, own).len() ==> (#[trigger] model::shape_push(
                own is None,
                model::shapes(object, own)[i],
                tile,
            ) is Some ==> overlapped(object, own, i, objects, members)),
    ensures
        model::group_push(object, own, objects, members) == push_of_parts(
            object,
            own,
            tile,
            model::shapes(object, own).len() as int,
        ),
{
    lemma_like_one_tile(
        object,
        own,
        objects,
        members,
        tile,
        model::shapes(object, own).len() as int,
    );
}

/// A polygon of an object overlaps a member of a group.
pub open spec fn overlapped(
    object: GameObject,
    own: Option<OutlineView>,
    i: int,
    objects: Seq<(Seq<char>, GameObject)>,
    members: Seq<(Seq<char>, OutlineView)>,
) -> bool {
    exists|j: int|
        0 <= j < members.len() && #[trigger] model::member_push(
            object,
            own,
            i,
            objects,
            members[j],
        ) is Some
}

proof fn lemma_like_one_tile(
    object: GameObject,
    own: Option<OutlineView>,
    objects: Seq<(Seq<char>, GameObject)>,
    members: Seq<(Seq<char>, OutlineView)>,
    tile: Seq<Seq<Vec2>>,
    n: int,
)
    requires
        n <= model::shapes(object, own).len(),
        forall|i: int, j: int|
            0 <= i < model::shapes(object, own).len() && 0 <= j < members.len() ==> (
            #[trigger] model::member_push(object, own, i, objects, members[j]) matches Some(v)
                ==> model::shape_push(own is None, model::shapes(object, own)[i], tile) == Some(v)),
        forall|i: int|
            0 <= i < model::shapes(object, own).len() ==> (#[trigger] model::shape_push(
                own is None,
                model::shapes(object, own)[i],
                tile,
            ) is Some ==> overlapped(object, own, i, objects, members)),
    ensures
        model::parts_push(object, own, objects, members, n) == push_of_parts(
            object,
            own,
            tile,
            n,
        ),
    decreases n,
{
    if n > 0 {
        let i = n - 1;
        lemma_like_one_tile(object, own, objects, members, tile, i);
        let w = model::shape_push(own is None, model::shapes(object, own)[i], tile);
        if w is Some {
            let k = choose|k: int|
                0 <= k < members.len() && #[trigger] model::member_push(
                    object,
                    own,
                    i,
                    objects,
                    members[k],
                ) is Some;
            law_same_pushes_count_once(object, own, i, objects, members, k);
        } else {
            lemma_part_is_not_there(object, own, i, objects, members, members.len() as int);
        }
    }
}

proof fn lemma_seam(
    object: GameObject,
    own: Option<OutlineView>,
    objects: Seq<(Seq<char>, GameObject)>,
    members: Seq<(Seq<char>, OutlineView)>,
    k: int,
    n: int,
)
    requires
        0 <= k < members.len(),
        n <= model::shapes(object, own).len(),
        forall|i: int, j: int|
            0 <= i < model::shapes(object, own).len() && 0 <= j < members.len() ==> (
            #[trigger] model::member_push(object, own, i, objects, members[j]) matches Some(v)
                ==> model::member_push(object, own, i, objects, members[k]) == Some(v)),
    ensures
        model::parts_push(object, own, objects, members, n) == model::parts_push(
            object,
            own,
            objects,
            seq![members[k]],
            n,
        ),
    decreases n,
{
    if n > 0 {
        lemma_seam(object, own, objects, members, k, n - 1);
        law_same_pushes_count_once(object, own, n - 1, objects, members, k);
        lemma_part_of_one(object, own, n - 1, objects, members[k]);
    }
}

/// A box across the seam between members that push it in the same way is moved once,
/// as by one of them alone.
pub proof fn law_seam_does_not_show(
    object: GameObject,
    objects: Seq<(Seq<char>, GameObject)>,
    members: Seq<(Seq<char>, OutlineView)>,
    k: int,
)
    requires
        0 <= k < members.len(),
        forall|j: int|
            0 <= j < members.len() ==> (#[trigger] model::member_push(
                object,
                None,
                0,
                objects,
                members[j],
            ) matches Some(v) ==> model::member_push(object, None, 0, objects, members[k]) == Some(
                v,
            )),
    ensures
        model::group_push(object, None, objects, members) == model::group_push(
            object,
            None,
            objects,
            seq![members[k]],
        ),
        model::group_push(object, None, objects, members) == model::member_push(
            object,
            None,
            0,
            objects,
            members[k],
        ),
{
    lemma_seam(object, None, objects, members, k, 1);
    law_same_pushes_count_once(object, None, 0, objects, members, k);
    reveal_with_fuel(model::parts_push, 2);
}

/// An object with an outline, across the seam between members, is moved once, as by
/// one of them alone, if that one pushes every polygon of the outline as the others
/// do.
pub proof fn law_seam_does_not_show_for_outline(
    object: GameObject,
    own: OutlineView,
    objects: Seq<(Seq<char>, GameObject)>,
    members: Seq<(Seq<char>, OutlineView)>,
    k: int,
)
    requires
        0 <= k < members.len(),
        forall|i: int, j: int|
            0 <= i < own.hulls.len() && 0 <= j < members.len() ==> (
            #[trigger] model::member_push(
                object,
                Some(own),
                i,
                objects,
                members[j],
            ) matches Some(v) ==> model::member_push(object, Some(own), i, objects, members[k])
                == Some(v)),
    ensures
        model::group_push(object, Some(own), objects, members) == model::group_push(
            object,
            Some(own),
            objects,
            seq![members[k]],
        ),
{
    lemma_seam(object, Some(own), objects, members, k, own.hulls.len() as int);
}

/// A box is moved by the farthest of the pushes of the members of a group, and by no
/// other one, where that takes it out of all of them: a box that stands on one tile
/// and sinks past the side of the next one is moved up, and not back.
pub proof fn law_box_is_moved_by_longest_push(
    object: GameObject,
    objects: Seq<(Seq<char>, GameObject)>,
    members: Seq<(Seq<char>, OutlineView)>,
    t: int,
    v: Vec2,
)
    requires
        0 <= t < members.len(),
        model::member_push(object, None, 0, objects, members[t]) == Some(v),
        forall|j: int|
            0 <= j < members.len() && j != t ==> (#[trigger] model::member_push(
                object,
                None,
                0,
                objects,
                members[j],
            ) matches Some(b) ==> model::outranks(v, t, b, j) && model::member_push(
                model::displaced(object, v),
                None,
                0,
                objects,
                members[j],
            ) is None),
    ensures
        model::group_push(object, None, objects, members) == Some(v),
        model::group_push(object, None, objects, members) == model::group_push(
            object,
            None,
            objects,
            seq![members[t]],
        ),
{
    law_longest_push_suffices(object, None, 0, objects, members, t, v);
    lemma_part_of_one(object, None, 0, objects, members[t]);
    reveal_with_fuel(model::parts_push, 2);
}

/// A group with one member pushes a box, and an object with an outline of one
/// polygon, as that member does alone.
pub proof fn law_group_of_one_is_its_member(
    object: GameObject,
    own: Option<OutlineView>,
    objects: Seq<(Seq<char>, GameObject)>,
    member: (Seq<char>, OutlineView),
    obstacle: GameObject,
)
    requires
        names::lookup(objects, member.0) == Some(obstacle),
        own matches Some(o) ==> o.hulls.len() == 1,
    ensures
        model::group_push(object, own, objects, seq![member]) == model::push_from(
            object,
            own,
            obstacle,
            member.1,
        ),
{
    lemma_part_of_one(object, own, 0, objects, member);
    reveal_with_fuel(model::parts_push, 2);
    reveal_with_fuel(sat::total_push, 2);
    let polys = model::shapes(object, own);
    if own is Some {
        assert(polys.drop_last().len() == 0);
        assert(polys.last() == polys[0]);
    }
}

/// A group with one member pushes an object with an outline by the sum of what the
/// member pushes the polygons of the outline by.
pub proof fn law_group_of_one_pushes_by_parts(
    object: GameObject,
    own: Option<OutlineView>,
    objects: Seq<(Seq<char>, GameObject)>,
    member: (Seq<char>, OutlineView),
)
    ensures
        model::group_push(object, own, objects, seq![member]) == push_of_parts(
            object,
            own,
            model::member_hulls(objects, member),
            model::shapes(object, own).len() as int,
        ),
{
    let members = seq![member];
    let tile = model::member_hulls(objects, member);
    assert forall|i: int|
        0 <= i < model::shapes(object, own).len() && #[trigger] model::shape_push(
            own is None,
            model::shapes(object, own)[i],
            tile,
        ) is Some implies overlapped(object, own, i, objects, members) by {
        assert(model::member_push(object, own, i, objects, members[0]) is Some);
    }
    law_group_is_like_one_tile(object, own, objects, members, tile);
}

// ---- several pushes ----

/// The square of a length is not negative.
proof fn lemma_square_not_negative(v: Vec2)
    requires
        !v.spec_length_sq().nan(),
    ensures
        !v.spec_length_sq().negative(),
{
    reveal(F32::spec_add);
    let p = v.x.spec_mul(v.x);
    let q = v.y.spec_mul(v.y);
    float_laws::law_sum_of_numbers(p, q);
    float_laws::law_product_of_numbers(v.x, v.x);
    float_laws::law_product_of_numbers(v.y, v.y);
    float_laws::law_square_is_not_negative(v.x);
    float_laws::law_square_is_not_negative(v.y);
    float_laws::law_not_negative(p);
    float_laws::law_not_negative(q);
    float_laws::lemma_round_bits_bounded((p.value() + q.value()) as nat, 1);
}

/// Of two pushes the longer one comes first; of two that are equally long, the one of
/// the earlier member.
pub proof fn law_longer_push_comes_first(a: Vec2, j: int, b: Vec2, m: int)
    requires
        !a.spec_length_sq().nan(),
        !b.spec_length_sq().nan(),
    ensures
        b.spec_length_sq().spec_lt(a.spec_length_sq()) ==> model::outranks(a, j, b, m)
            && !model::outranks(b, m, a, j),
        a.spec_length_sq() == b.spec_length_sq() ==> (model::outranks(a, j, b, m) <==> j < m),
{
    reveal(F32::spec_lt);
    lemma_square_not_negative(a);
    lemma_square_not_negative(b);
    let x = a.spec_length_sq();
    let y = b.spec_length_sq();
    if y.spec_lt(x) && x.bits < y.bits {
        float::lemma_magnitude_monotone(x.mag(), y.mag());
    }
}

/// An object is displaced by a way in both coordinates, and only that.
pub proof fn law_displaced_object_is_moved(object: GameObject, by: Vec2)
    ensures
        ({
            let after = model::displaced(object, by);
            &&& after.position.x == object.position.x.spec_add(by.x)
            &&& after.position.y == object.position.y.spec_add(by.y)
            &&& after.size == object.size
            &&& after.rotation == object.rotation
        }),
{
}

/// Two members push a polygon, and neither push is of any use against the other
/// member: they differ, and a polygon that is moved by one still overlaps the other.
pub open spec fn independent(
    object: GameObject,
    own: Option<OutlineView>,
    i: int,
    objects: Seq<(Seq<char>, GameObject)>,
    a: (Seq<char>, OutlineView),
    b: (Seq<char>, OutlineView),
) -> bool {
    match (
        model::member_push(object, own, i, objects, a),
        model::member_push(object, own, i, objects, b),
    ) {
        (Some(u), Some(v)) => u != v && model::member_push(
            model::displaced(object, u),
            own,
            i,
            objects,
            b,
        ) is Some,
        _ => true,
    }
}

/// Every push of a group that is needed counts: with one more member, where no push
/// takes a polygon out of another member as well, the push on the polygon is what it
/// was before, plus the push of that member.
pub proof fn law_needed_pushes_add_up(
    object: GameObject,
    own: Option<OutlineView>,
    i: int,
    objects: Seq<(Seq<char>, GameObject)>,
    members: Seq<(Seq<char>, OutlineView)>,
    member: (Seq<char>, OutlineView),
)
    requires
        forall|j: int, m: int|
            0 <= j <= members.len() && 0 <= m <= members.len() && j != m ==> independent(
                object,
                own,
                i,
                objects,
                #[trigger] members.push(member)[j],
                #[trigger] members.push(member)[m],
            ),
    ensures
        ({
            let before = model::part_push(object, own, i, objects, members, members.len() as int);
            let after = model::part_push(
                object,
                own,
                i,
                objects,
                members.push(member),
                members.len() as int + 1,
            );
            match (before, model::member_push(object, own, i, objects, member)) {
                (Some(u), Some(v)) => after == Some(
                    Vec2 { x: u.x.spec_add(v.x), y: u.y.spec_add(v.y) },
                ),
                (None, v) => after == v,
                (u, None) => after == u,
            }
        }),
{
    let more = members.push(member);
    let n = members.len() as int;
    assert forall|m: int| 0 <= m <= n implies !#[trigger] model::needless(
        object,
        own,
        i,
        objects,
        more,
        m,
    ) by {
        assert forall|j: int| 0 <= j < more.len() implies !#[trigger] model::replaces(
            object,
            own,
            i,
            objects,
            more,
            j,
            m,
        ) by {
            if j != m {
                assert(independent(object, own, i, objects, more[j], more[m]));
            }
        }
    }
    assert forall|m: int| 0 <= m < n implies !#[trigger] model::needless(
        object,
        own,
        i,
        objects,
        members,
        m,
    ) by {
        assert forall|j: int| 0 <= j < members.len() implies !#[trigger] model::replaces(
            object,
            own,
            i,
            objects,
            members,
            j,
            m,
        ) by {
            assert(more[j] == members[j] && more[m] == members[m]);
            if j != m {
                assert(independent(object, own, i, objects, more[j], more[m]));
            }
        }
    }
    lemma_same_sums(object, own, i, objects, members, more, n);
    assert(!model::needless(object, own, i, objects, more, n));
}

proof fn lemma_same_sums(
    object: GameObject,
    own: Option<OutlineView>,
    i: int,
    objects: Seq<(Seq<char>, GameObject)>,
    a: Seq<(Seq<char>, OutlineView)>,
    b: Seq<(Seq<char>, OutlineView)>,
    k: int,
)
    requires
        0 <= k <= a.len() <= b.len(),
        forall|m: int| 0 <= m < k ==> a[m] == #[trigger] b[m],
        forall|m: int| 0 <= m < k ==> !#[trigger] model::needless(object, own, i, objects, a, m),
        forall|m: int| 0 <= m < k ==> !#[trigger] model::needless(object, own, i, objects, b, m),
    ensures
        model::part_push(object, own, i, objects, a, k) == model::part_push(
            object,
            own,
            i,
            objects,
            b,
            k,
        ),
    decreases k,
{
    if k > 0 {
        lemma_same_sums(object, own, i, objects, a, b, k - 1);
        assert(a[k - 1] == b[k - 1]);
        assert(!model::needless(object, own, i, objects, a, k - 1));
        assert(!model::needless(object, own, i, objects, b, k - 1));
    }
}

/// A push that is of no need does not count: a member whose push comes after that of
/// another one, which takes the polygon out of it as well, adds nothing.
pub proof fn law_needless_push_does_not_count(
    object: GameObject,
    own: Option<OutlineView>,
    i: int,
    objects: Seq<(Seq<char>, GameObject)>,
    members: Seq<(Seq<char>, OutlineView)>,
    j: int,
    m: int,
    u: Vec2,
    v: Vec2,
)
    requires
        0 <= j < members.len(),
        0 <= m < members.len(),
        model::member_push(object, own, i, objects, members[j]) == Some(u),
        model::member_push(object, own, i, objects, members[m]) == Some(v),
        !v.spec_length_sq().nan(),
        !u.spec_length_sq().nan(),
        v.spec_length_sq().spec_lt(u.spec_length_sq()),
        model::member_push(model::displaced(object, u), own, i, objects, members[m]) is None,
    ensures
        model::part_push(object, own, i, objects, members, m + 1) == model::part_push(
            object,
            own,
            i,
            objects,
            members,
            m,
        ),
{
    law_longer_push_comes_first(u, j, v, m);
    assert(model::replaces(object, own, i, objects, members, j, m));
    assert(model::needless(object, own, i, objects, members, m));
}

/// The push of a group on an object is the sum of its pushes on the polygons of the
/// object: one more polygon adds the push on it.
pub proof fn law_pushes_on_polygons_add_up(
    object: GameObject,
    own: Option<OutlineView>,
    objects: Seq<(Seq<char>, GameObject)>,
    members: Seq<(Seq<char>, OutlineView)>,
    n: int,
)
    requires
        0 <= n,
    ensures
        model::parts_push(object, own, objects, members, 0) is None,
        ({
            let before = model::parts_push(object, own, objects, members, n);
            let after = model::parts_push(object, own, objects, members, n + 1);
            match (
                before,
                model::part_push(object, own, n, objects, members, members.len() as int),
            ) {
                (Some(u), Some(v)) => after == Some(
                    Vec2 { x: u.x.spec_add(v.x), y: u.y.spec_add(v.y) },
                ),
                (None, v) => after == v,
                (u, None) => after == u,
            }
        }),
        model::group_push(object, own, objects, members) == model::parts_push(
            object,
            own,
            objects,
            members,
            match own {
                Some(o) => o.hulls.len() as int,
                None => 1,
            },
        ),
{
}

// ---- in the plugin ----

/// What matters of a group for an object is its push: with a group in place of
/// another one that pushes the object in the same way, the object is pushed as
/// before.
pub proof fn law_groups_count_by_their_push(
    p: PluginView,
    g: int,
    members: Seq<(Seq<char>, OutlineView)>,
    name: Seq<char>,
    object: GameObject,
    objects: Seq<(Seq<char>, GameObject)>,
)
    requires
        0 <= g < p.groups.len(),
        model::group_push(
            object,
            names::lookup(p.dynamic_outlines, name),
            objects,
            p.groups[g].1,
        ) == model::group_push(
            object,
            names::lookup(p.dynamic_outlines, name),
            objects,
            members,
        ),
    ensures
        (PluginView { groups: p.groups.update(g, (p.groups[g].0, members)), ..p }).push_on(
            name,
            object,
            objects,
        ) == p.push_on(name, object, objects),
{
    let own = names::lookup(p.dynamic_outlines, name);
    lemma_group_replaced(
        object,
        own,
        objects,
        p.groups,
        g,
        members,
        model::pushed_by(object, own, objects, p.terrain, Vec2::spec_zero()),
    );
}

proof fn lemma_group_replaced(
    object: GameObject,
    own: Option<OutlineView>,
    objects: Seq<(Seq<char>, GameObject)>,
    groups: Seq<(Seq<char>, Seq<(Seq<char>, OutlineView)>)>,
    g: int,
    members: Seq<(Seq<char>, OutlineView)>,
    start: Vec2,
)
    requires
        0 <= g < groups.len(),
        model::group_push(object, own, objects, groups[g].1) == model::group_push(
            object,
            own,
            objects,
            members,
        ),
    ensures
        model::pushed_by_groups(
            object,
            own,
            objects,
            groups.update(g, (groups[g].0, members)),
            start,
        ) == model::pushed_by_groups(object, own, objects, groups, start),
    decreases groups.len(),
{
    let changed = groups.update(g, (groups[g].0, members));
    let rest = groups.drop_last();
    if g < groups.len() - 1 {
        lemma_group_replaced(object, own, objects, rest, g, members, start);
        assert(changed.drop_last() =~= rest.update(g, (rest[g].0, members)));
        assert(changed.last() == groups.last());
    } else {
        assert(changed.drop_last() =~= rest);
    }
}

/// An object across a seam of a group is pushed by the plugin as with one of the
/// members in the group.
pub proof fn law_seam_does_not_show_in_plugin(
    p: PluginView,
    g: int,
    k: int,
    name: Seq<char>,
    object: GameObject,
    objects: Seq<(Seq<char>, GameObject)>,
)
    requires
        0 <= g < p.groups.len(),
        0 <= k < p.groups[g].1.len(),
        forall|i: int, j: int|
            0 <= i < model::shapes(object, names::lookup(p.dynamic_outlines, name)).len() && 0 <= j
                < p.groups[g].1.len() ==> (#[trigger] model::member_push(
                object,
                names::lookup(p.dynamic_outlines, name),
                i,
                objects,
                p.groups[g].1[j],
            ) matches Some(v) ==> model::member_push(
                object,
                names::lookup(p.dynamic_outlines, name),
                i,
                objects,
                p.groups[g].1[k],
            ) == Some(v)),
    ensures
        (PluginView {
            groups: p.groups.update(g, (p.groups[g].0, seq![p.groups[g].1[k]])),
            ..p
        }).push_on(name, object, objects) == p.push_on(name, object, objects),
{
    let own = names::lookup(p.dynamic_outlines, name);
    let members = p.groups[g].1;
    lemma_seam(
        object,
        own,
        objects,
        members,
        k,
        model::shapes(object, own).len() as int,
    );
    law_groups_count_by_their_push(p, g, seq![members[k]], name, object, objects);
}

} // verus!
