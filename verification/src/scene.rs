//! The objects that collide.

use crate::float::F32;
use crate::names::NameMap;
use crate::outline::Rotation;
use crate::vec2::Vec2;
use vstd::prelude::*;

verus! {

/// What a collision depends on, and changes, of an object. The position is that
/// of a corner.
#[derive(Clone, Copy, Debug)]
pub struct GameObject {
    pub position: Vec2,
    pub size: (F32, F32),
    pub rotation: Rotation,
    pub momentum: Vec2,
    pub is_platform: bool,
}

impl View for GameObject {
    type V = GameObject;

    open spec fn view(&self) -> GameObject {
        *self
    }
}

pub open spec fn texts(list: Seq<String>) -> Seq<Seq<char>> {
    Seq::new(list.len(), |i: int| list[i]@)
}

/// The names of the objects to go through, and the objects by name.
#[derive(Debug)]
pub struct Scene {
    pub names: Vec<String>,
    pub objects: NameMap<GameObject>,
}

/// The names of the objects to go through, and the objects by name.
#[verifier::ext_equal]
pub struct SceneView {
    pub names: Seq<Seq<char>>,
    pub objects: Seq<(Seq<char>, GameObject)>,
}

impl View for Scene {
    type V = SceneView;

    open spec fn view(&self) -> SceneView {
        SceneView { names: texts(self.names@), objects: self.objects@ }
    }
}

/// What is to be changed of an object.
#[verifier::ext_equal]
pub struct CorrectionView {
    pub name: Seq<char>,
    pub pos_delta: Vec2,
    pub mom_delta: Vec2,
}

/// What is to be changed of an object.
#[derive(Debug)]
pub struct Correction {
    pub name: String,
    pub pos_delta: Vec2,
    pub mom_delta: Vec2,
}

impl View for Correction {
    type V = CorrectionView;

    open spec fn view(&self) -> CorrectionView {
        CorrectionView {
            name: self.name@,
            pos_delta: self.pos_delta,
            mom_delta: self.mom_delta,
        }
    }
}

} // verus!
