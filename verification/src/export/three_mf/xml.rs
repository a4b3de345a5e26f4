//! The 3MF model document, as values. Turning it into XML text is the
//! job of a serializer outside this crate.

use vstd::prelude::*;
use vstd::string::*;

verus! {

/// 3MF model document.
#[derive(Debug, Clone)]
pub struct Model<V> {
    pub xmlns: String,
    pub xmlns_m: Option<String>,
    pub metadata: Vec<Metadata>,
    pub resources: Resources<V>,
    pub build: Build,
    pub unit: Unit,
}

/// Length unit for the model. The default unit is millimeter.
#[derive(Debug, Clone, Copy, PartialEq, Eq, Structural)]
pub enum Unit {
    Micron,
    Millimeter,
    Centimeter,
    Inch,
    Foot,
    Meter,
}

impl Default for Unit {
    fn default() -> (u: Unit)
        ensures
            u == Unit::Millimeter,
    {
        Unit::Millimeter
    }
}

/// One metadata entry in the model.
#[derive(Debug, Clone, PartialEq, Eq)]
pub struct Metadata {
    pub name: String,
    pub value: Option<String>,
}

#[derive(Debug, Clone)]
pub struct Resources<V> {
    pub object: Vec<Object<V>>,
    pub basematerials: Option<Vec<BaseMaterials>>,
}

#[derive(Debug, Clone, PartialEq)]
pub struct BaseMaterials {
    pub id: usize,
    pub base: Vec<Base>,
}

#[derive(Debug, Clone, PartialEq)]
pub struct Base {
    pub name: String,
    pub displaycolor: String,
}

/// An object resource: a mesh with an id, a name, and an optional
/// reference to a base material (`pid` the material group, `pindex` the
/// material in it).
#[derive(Debug, Clone)]
pub struct Object<V> {
    pub id: usize,
    pub partnumber: Option<String>,
    pub name: Option<String>,
    pub pid: Option<usize>,
    pub pindex: Option<usize>,
    pub mesh: Option<Mesh<V>>,
}

/// The build list: the objects placed on the plate.
#[derive(Debug, Clone)]
pub struct Build {
    pub item: Vec<Item>,
}

/// One placed object, by id.
#[derive(Debug, Clone)]
pub struct Item {
    pub objectid: usize,
    pub partnumber: Option<String>,
}

/// Triangle mesh in a 3MF object.
#[derive(Debug, Clone)]
pub struct Mesh<V> {
    pub vertices: Vertices<V>,
    pub triangles: Triangles,
}

#[derive(Debug, Clone)]
pub struct Vertices<V> {
    pub vertex: Vec<V>,
}

#[derive(Debug, Clone, PartialEq)]
pub struct Triangles {
    pub triangle: Vec<Triangle>,
}

#[derive(Debug, Clone, Copy, PartialEq, Eq, Structural)]
pub struct Triangle {
    pub v1: usize,
    pub v2: usize,
    pub v3: usize,
}

/// The namespace of the 3MF core specification.
pub open spec fn core_namespace() -> Seq<char> {
    "http://schemas.microsoft.com/3dmanufacturing/core/2015/02"@
}

/// The namespace of the 3MF materials extension.
pub open spec fn material_namespace() -> Seq<char> {
    "http://schemas.microsoft.com/3dmanufacturing/material/2015/02"@
}

impl<V> Model<V> {
    /// An empty document in millimeters that declares the core and material
    /// namespaces.
    pub fn empty() -> (m: Model<V>)
        ensures
            m.xmlns@ == core_namespace(),
            m.xmlns_m matches Some(ns) && ns@ == material_namespace(),
            m.metadata@.len() == 0,
            m.resources.object@.len() == 0,
            m.resources.basematerials is None,
            m.build.item@.len() == 0,
            m.unit == Unit::Millimeter,
    {
        Model {
            xmlns: String::from_str("http://schemas.microsoft.com/3dmanufacturing/core/2015/02"),
            xmlns_m: Some(
                String::from_str("http://schemas.microsoft.com/3dmanufacturing/material/2015/02"),
            ),
            metadata: Vec::new(),
            resources: Resources { object: Vec::new(), basematerials: None },
            build: Build { item: Vec::new() },
            unit: Unit::Millimeter,
        }
    }
}

impl<V> Default for Model<V> {
    fn default() -> (m: Model<V>)
        ensures
            m.xmlns@ == core_namespace(),
            m.xmlns_m matches Some(ns) && ns@ == material_namespace(),
            m.metadata@.len() == 0,
            m.resources.object@.len() == 0,
            m.resources.basematerials is None,
            m.build.item@.len() == 0,
            m.unit == Unit::Millimeter,
    {
        Model::empty()
    }
}

} // verus!
