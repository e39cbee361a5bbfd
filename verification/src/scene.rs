//! The scene file's object model: a list of top-level objects, each with a
//! guid, a class, a transform, and optional references and attributes.
use vstd::prelude::*;

verus! {

/// A whole scene: its objects and the header attributes of the file.
#[derive(Clone, Debug)]
pub struct Scene {
    pub objects: Objects,
    pub version: String,
    pub filename: String,
    pub timestamp: String,
    pub user: String,
}

/// The list of top-level objects of a scene.
#[derive(Clone, Debug)]
pub struct Objects {
    pub object: Vec<TopLevelObject>,
}

/// One object of the scene.
#[derive(Clone, Debug)]
pub struct TopLevelObject {
    pub guid: String,
    pub class: String,
    pub transform: Transform,
    pub references: Option<References>,
    pub attributes: Option<Attributes>,
}

/// Where an object stands.
#[derive(Clone, Copy, PartialEq, Eq, Structural, Debug)]
pub struct Transform {
    pub object: InnerObject,
    pub node: Node,
}

/// The position of an object's own frame.
#[derive(Clone, Copy, PartialEq, Eq, Structural, Debug)]
pub struct InnerObject {
    pub position: Position,
}

/// The position of an object's node frame; routing uses this one.
#[derive(Clone, Copy, PartialEq, Eq, Structural, Debug)]
pub struct Node {
    pub position: Position,
}

/// A point in space.  Each coordinate is the IEEE-754 bit pattern of a
/// 32-bit float, so that a position is carried through unchanged; the
/// arithmetic on coordinates is left to the caller.
#[derive(Clone, Copy, PartialEq, Eq, Structural, Debug)]
pub struct Position {
    pub x: u32,
    pub y: u32,
    pub z: u32,
}

/// The guids an object refers to.
#[derive(Clone, Debug)]
pub struct References {
    pub reference: Vec<Ref>,
}

/// A reference to another object, by guid.
#[derive(Clone, Debug)]
pub struct Ref {
    pub guid: String,
}

/// The attribute list of an object; the list itself may be absent.
#[derive(Clone, Debug)]
pub struct Attributes {
    pub attribute: Option<Vec<Attribute>>,
}

/// A named attribute value.
#[derive(Clone, Debug)]
pub struct Attribute {
    pub name: String,
    pub value: String,
}

} // verus!
