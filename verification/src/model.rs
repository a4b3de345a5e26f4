//! Printable assemblies: named, optionally colored meshes with print intent.

use vstd::prelude::*;

use crate::color::Color;
use crate::length::Length;
use crate::mesh::Mesh;

verus! {

/// A printable assembly: named, optionally colored meshes.
#[derive(Debug, Clone)]
pub struct Model<V> {
    objects: Vec<Object<V>>,
    print: PrintSettings,
}

impl<V> Model<V> {
    /// The objects of the model, in the order they were added.
    pub closed spec fn object_seq(&self) -> Seq<Object<V>> {
        self.objects@
    }

    /// The print intent of the model as a whole.
    pub closed spec fn print_settings(&self) -> PrintSettings {
        self.print
    }

    /// An empty model that leaves every print setting to the slicer.
    pub fn new() -> (m: Model<V>)
        ensures
            m.object_seq().len() == 0,
            m.print_settings() == PrintSettings::unset(),
    {
        Model { objects: Vec::new(), print: PrintSettings::default() }
    }

    /// Add `object` after the objects already in the model.
    pub fn add(&mut self, object: Object<V>)
        ensures
            final(self).object_seq() == old(self).object_seq().push(object),
            final(self).print_settings() == old(self).print_settings(),
    {
        self.objects.push(object);
    }

    /// The objects of the model, in the order they were added.
    pub fn objects(&self) -> (o: &[Object<V>])
        ensures
            o@ == self.object_seq(),
    {
        self.objects.as_slice()
    }
}

impl<V> Default for Model<V> {
    fn default() -> (m: Model<V>)
        ensures
            m.object_seq().len() == 0,
            m.print_settings() == PrintSettings::unset(),
    {
        Model::new()
    }
}

/// One object in a [`Model`]: a tessellated mesh with a name and optional color.
#[derive(Debug, Clone)]
pub struct Object<V> {
    pub name: String,
    pub mesh: Mesh<V>,
    pub color: Option<Color>,
    pub print: PrintSettings,
}

impl<V> Object<V> {
    /// An uncolored object that leaves every print setting to the model.
    pub fn new(name: String, mesh: Mesh<V>) -> (o: Object<V>)
        ensures
            o.name == name,
            o.mesh == mesh,
            o.color is None,
            o.print == PrintSettings::unset(),
    {
        Object { name, mesh, color: None, print: PrintSettings::default() }
    }

    /// This object in `color`.
    pub fn with_color(self, color: Color) -> (o: Object<V>)
        ensures
            o.name == self.name,
            o.mesh == self.mesh,
            o.color == Some(color),
            o.print == self.print,
    {
        let mut o = self;
        o.color = Some(color);
        o
    }

    /// This object with the print intent `print`.
    pub fn with_print(self, print: PrintSettings) -> (o: Object<V>)
        ensures
            o.name == self.name,
            o.mesh == self.mesh,
            o.color == self.color,
            o.print == print,
    {
        let mut o = self;
        o.print = print;
        o
    }
}

/// Print intent for a model or one object.
///
/// Each field is optional. A `None` value inherits from the parent
/// (object from model, model from the slicer).
#[derive(Debug, Clone, Copy, PartialEq, Eq, Structural, Hash)]
pub struct PrintSettings {
    pub nozzle: Option<Nozzle>,
    pub layer_height: Option<Length>,
    pub infill: Option<Infill>,
    pub support: Option<Support>,
    pub walls: Option<u32>,
}

impl PrintSettings {
    /// Print settings that set nothing.
    pub open spec fn unset() -> PrintSettings {
        PrintSettings { nozzle: None, layer_height: None, infill: None, support: None, walls: None }
    }
}

impl Default for PrintSettings {
    fn default() -> (p: PrintSettings)
        ensures
            p == PrintSettings::unset(),
    {
        PrintSettings { nozzle: None, layer_height: None, infill: None, support: None, walls: None }
    }
}

/// Common FDM nozzle diameters.
#[derive(Debug, Clone, Copy, PartialEq, Eq, Structural, Hash)]
pub enum Nozzle {
    /// 0.2 mm
    D02,
    /// 0.4 mm
    D04,
    /// 0.6 mm
    D06,
    /// 0.8 mm
    D08,
}

impl Nozzle {
    /// The diameter of the nozzle.
    pub fn diameter(self) -> (d: Length)
        ensures
            d@ == match self {
                Nozzle::D02 => 200int,
                Nozzle::D04 => 400int,
                Nozzle::D06 => 600int,
                Nozzle::D08 => 800int,
            },
    {
        match self {
            Nozzle::D02 => Length::um(200),
            Nozzle::D04 => Length::um(400),
            Nozzle::D06 => Length::um(600),
            Nozzle::D08 => Length::um(800),
        }
    }
}

#[derive(Debug, Clone, Copy, PartialEq, Eq, Structural, Hash)]
pub struct Infill {
    pub pattern: Option<InfillPattern>,
    /// Percent, 0 through 100.
    pub density: Option<u8>,
}

impl Default for Infill {
    fn default() -> (i: Infill)
        ensures
            i == (Infill { pattern: None, density: None }),
    {
        Infill { pattern: None, density: None }
    }
}

/// Patterns that Bambu and Prusa both know.
#[derive(Debug, Clone, Copy, PartialEq, Eq, Structural, Hash)]
pub enum InfillPattern {
    Lines,
    Grid,
    Gyroid,
    Honeycomb,
    Cubic,
    Lightning,
}

#[derive(Debug, Clone, Copy, PartialEq, Eq, Structural, Hash)]
pub enum Support {
    Off,
    On {
        kind: SupportKind,
        on_build_plate_only: bool,
        support_critical_regions_only: bool,
        /// Gap between support and part. Maps to slicer contact distance.
        z_offset: Option<Length>,
    },
}

#[derive(Debug, Clone, Copy, PartialEq, Eq, Structural, Hash)]
pub enum SupportKind {
    Normal,
    Tree,
}

impl Default for SupportKind {
    fn default() -> (k: SupportKind)
        ensures
            k == SupportKind::Normal,
    {
        SupportKind::Normal
    }
}

} // verus!
