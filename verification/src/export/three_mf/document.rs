//! Turning a model into a 3MF document.

use vstd::prelude::*;
use vstd::string::*;

use crate::color::{Color, display_color};
use crate::export::three_mf::xml::{
    Base, BaseMaterials, Build, Item, Mesh as XmlMesh, Metadata, Model as XmlModel,
    Object as XmlObject, Resources, Triangle, Triangles, Unit, Vertices, core_namespace,
    material_namespace,
};
use crate::mesh::Mesh;
use crate::model::{Model, Object};

verus! {

/// The color of each object, in order.
pub open spec fn colors_of<V>(objects: Seq<Object<V>>) -> Seq<Option<Color>> {
    objects.map_values(|o: Object<V>| o.color)
}

/// The colors in `colors` in order of first use, each once.
pub open spec fn unique_colors(colors: Seq<Option<Color>>) -> Seq<Color>
    decreases colors.len(),
{
    if colors.len() == 0 {
        Seq::empty()
    } else {
        let earlier = unique_colors(colors.drop_last());
        match colors.last() {
            Some(c) => if earlier.contains(c) {
                earlier
            } else {
                earlier.push(c)
            },
            None => earlier,
        }
    }
}

/// The position of the first `c` in `colors` (its length when absent).
pub open spec fn first_index(colors: Seq<Color>, c: Color) -> int
    decreases colors.len(),
{
    if colors.len() == 0 {
        0
    } else if colors[0] == c {
        0
    } else {
        1 + first_index(colors.drop_first(), c)
    }
}

/// The 3MF triangle for a mesh triangle.
pub open spec fn xml_triangle(t: [usize; 3]) -> Triangle {
    Triangle { v1: t[0], v2: t[1], v3: t[2] }
}

/// `m` holds the vertices and triangles of `mesh`.
pub open spec fn mesh_entry<V>(m: XmlMesh<V>, mesh: Mesh<V>) -> bool {
    &&& m.vertices.vertex@ == mesh.vertices@
    &&& m.triangles.triangle@ == mesh.triangles@.map_values(|t: [usize; 3]| xml_triangle(t))
}

/// The base material group: none without colors, otherwise one group with
/// id 1 holding one material per color, named and displayed by its
/// `displaycolor` text.
pub open spec fn materials_entry(materials: Option<Vec<BaseMaterials>>, colors: Seq<Color>) -> bool {
    if colors.len() == 0 {
        materials is None
    } else {
        &&& materials matches Some(groups)
        &&& groups@.len() == 1
        &&& groups@[0].id == 1
        &&& groups@[0].base@.len() == colors.len()
        &&& forall|j: int|
            0 <= j < colors.len() ==> {
                &&& (#[trigger] groups@[0].base@[j]).name@ == display_color(colors[j])
                &&& groups@[0].base@[j].displaycolor@ == display_color(colors[j])
            }
    }
}

/// `o` is the resource of `object` under id `id`: its name, its mesh, and
/// for a colored object a reference to that color's base material.
pub open spec fn object_entry<V>(o: XmlObject<V>, object: Object<V>, id: int, colors: Seq<Color>) -> bool {
    &&& o.id == id
    &&& o.partnumber is None
    &&& o.name matches Some(name) && name@ == object.name@
    &&& match object.color {
        Some(c) => o.pid == Some(1usize) && o.pindex == Some(first_index(colors, c) as usize),
        None => o.pid is None && o.pindex is None,
    }
    &&& o.mesh matches Some(m) && mesh_entry(m, object.mesh)
}

/// The id of the first object: 1, or 2 when id 1 goes to the base materials.
pub open spec fn first_object_id(colors: Seq<Color>) -> int {
    if colors.len() > 0 {
        2
    } else {
        1
    }
}

/// `doc` is the 3MF document of `objects` with `metadata`: in millimeters,
/// with the base materials of the objects' colors, one resource per object
/// under consecutive ids, and a build item for each object in order.
pub open spec fn document_of<V>(objects: Seq<Object<V>>, metadata: Seq<Metadata>, doc: XmlModel<V>) -> bool {
    let colors = unique_colors(colors_of(objects));
    let start = first_object_id(colors);
    &&& doc.xmlns@ == core_namespace()
    &&& doc.xmlns_m matches Some(ns) && ns@ == material_namespace()
    &&& doc.metadata@ == metadata
    &&& doc.unit == Unit::Millimeter
    &&& materials_entry(doc.resources.basematerials, colors)
    &&& doc.resources.object@.len() == objects.len()
    &&& forall|k: int|
        0 <= k < objects.len() ==> object_entry(#[trigger] doc.resources.object@[k], objects[k], start + k, colors)
    &&& doc.build.item@.len() == objects.len()
    &&& forall|k: int|
        0 <= k < objects.len() ==> {
            &&& (#[trigger] doc.build.item@[k]).objectid == start + k
            &&& doc.build.item@[k].partnumber is None
        }
}

/// The position of `c` in `colors`, if it is there.
fn find_color(colors: &Vec<Color>, c: Color) -> (r: Option<usize>)
    ensures
        r matches Some(j) ==> colors@.contains(c) && j == first_index(colors@, c),
        r is None ==> !colors@.contains(c),
{
    let mut j: usize = 0;
    while j < colors.len()
        invariant
            0 <= j <= colors@.len(),
            forall|k: int| 0 <= k < j ==> colors@[k] != c,
        decreases colors@.len() - j,
    {
        if colors[j] == c {
            proof {
                lemma_first_index_at(colors@, c, j as int);
            }
            return Some(j);
        }
        j += 1;
    }
    None
}

proof fn lemma_first_index_at(colors: Seq<Color>, c: Color, j: int)
    requires
        0 <= j < colors.len(),
        colors[j] == c,
        forall|k: int| 0 <= k < j ==> colors[k] != c,
    ensures
        first_index(colors, c) == j,
    decreases j,
{
    if j > 0 {
        lemma_first_index_at(colors.drop_first(), c, j - 1);
    }
}

/// The colors of the objects in order of first use, each once.
fn collect_colors<V>(objects: &[Object<V>]) -> (colors: Vec<Color>)
    ensures
        colors@ == unique_colors(colors_of(objects@)),
{
    let mut colors: Vec<Color> = Vec::new();
    let mut k: usize = 0;
    while k < objects.len()
        invariant
            0 <= k <= objects@.len(),
            colors@ == unique_colors(colors_of(objects@.take(k as int))),
        decreases objects@.len() - k,
    {
        proof {
            assert(colors_of(objects@.take(k + 1)).drop_last() =~= colors_of(objects@.take(k as int)));
            assert(colors_of(objects@.take(k + 1)).last() == objects@[k as int].color);
        }
        if let Some(c) = objects[k].color {
            if find_color(&colors, c).is_none() {
                colors.push(c);
            }
        }
        k += 1;
    }
    assert(objects@.take(objects@.len() as int) =~= objects@);
    colors
}

/// The 3MF mesh of `mesh`: the same vertices, and each triangle as three
/// vertex indices.
fn to_xml_mesh<V: Copy>(mesh: &Mesh<V>) -> (m: XmlMesh<V>)
    ensures
        mesh_entry(m, *mesh),
{
    let mut vertex: Vec<V> = Vec::new();
    let mut i: usize = 0;
    while i < mesh.vertices.len()
        invariant
            0 <= i <= mesh.vertices@.len(),
            vertex@ == mesh.vertices@.take(i as int),
        decreases mesh.vertices@.len() - i,
    {
        vertex.push(mesh.vertices[i]);
        i += 1;
        assert(vertex@ =~= mesh.vertices@.take(i as int));
    }
    assert(mesh.vertices@.take(mesh.vertices@.len() as int) =~= mesh.vertices@);
    let mut triangle: Vec<Triangle> = Vec::new();
    let mut t: usize = 0;
    while t < mesh.triangles.len()
        invariant
            0 <= t <= mesh.triangles@.len(),
            triangle@ == mesh.triangles@.take(t as int).map_values(|t: [usize; 3]| xml_triangle(t)),
        decreases mesh.triangles@.len() - t,
    {
        let corners = mesh.triangles[t];
        triangle.push(Triangle { v1: corners[0], v2: corners[1], v3: corners[2] });
        t += 1;
        assert(triangle@ =~= mesh.triangles@.take(t as int).map_values(|t: [usize; 3]| xml_triangle(t)));
    }
    assert(mesh.triangles@.take(mesh.triangles@.len() as int) =~= mesh.triangles@);
    XmlMesh { vertices: Vertices { vertex }, triangles: Triangles { triangle } }
}

/// Every color of an object appears among the collected colors.
proof fn lemma_color_collected(colors: Seq<Option<Color>>, k: int)
    requires
        0 <= k < colors.len(),
        colors[k] is Some,
    ensures
        unique_colors(colors).contains(colors[k].unwrap()),
    decreases colors.len(),
{
    let c = colors[k].unwrap();
    let earlier = unique_colors(colors.drop_last());
    if k < colors.len() - 1 {
        lemma_color_collected(colors.drop_last(), k);
        if let Some(d) = colors.last() {
            if !earlier.contains(d) {
                let i = choose|i: int| 0 <= i < earlier.len() && earlier[i] == c;
                assert(earlier.push(d)[i] == c);
            }
        }
    } else {
        if earlier.contains(c) {
        } else {
            assert(earlier.push(c)[earlier.len() as int] == c);
        }
    }
}

/// Convert a model to a 3MF document.
pub fn to_document<V: Copy>(model: &Model<V>, metadata: Vec<Metadata>) -> (doc: XmlModel<V>)
    requires
        model.object_seq().len() + 2 <= usize::MAX,
    ensures
        document_of(model.object_seq(), metadata@, doc),
{
    let objects = model.objects();
    let ghost objs = objects@;
    let colors = collect_colors(objects);
    let mut document: XmlModel<V> = XmlModel::empty();
    document.metadata = metadata;
    let materials_id: Option<usize> = if colors.len() == 0 { None } else { Some(1) };
    let start_id: usize = if colors.len() == 0 { 1 } else { 2 };

    if colors.len() > 0 {
        let mut base: Vec<Base> = Vec::new();
        let mut j: usize = 0;
        while j < colors.len()
            invariant
                0 <= j <= colors@.len(),
                base@.len() == j,
                forall|i: int|
                    0 <= i < j ==> {
                        &&& (#[trigger] base@[i]).name@ == display_color(colors@[i])
                        &&& base@[i].displaycolor@ == display_color(colors@[i])
                    },
            decreases colors@.len() - j,
        {
            let c = colors[j];
            base.push(Base { name: c.displaycolor(), displaycolor: c.displaycolor() });
            j += 1;
        }
        let mut groups: Vec<BaseMaterials> = Vec::new();
        groups.push(BaseMaterials { id: 1, base });
        document.resources.basematerials = Some(groups);
    }

    let mut k: usize = 0;
    while k < objects.len()
        invariant
            0 <= k <= objs.len(),
            objs == objects@,
            objs == model.object_seq(),
            objs.len() + 2 <= usize::MAX,
            colors@ == unique_colors(colors_of(objs)),
            start_id == first_object_id(colors@),
            materials_id == (if colors@.len() == 0 { None } else { Some(1usize) }),
            document.xmlns@ == core_namespace(),
            document.xmlns_m matches Some(ns) && ns@ == material_namespace(),
            document.metadata@ == metadata@,
            document.unit == Unit::Millimeter,
            materials_entry(document.resources.basematerials, colors@),
            document.resources.object@.len() == k,
            forall|i: int|
                0 <= i < k ==> object_entry(
                    #[trigger] document.resources.object@[i],
                    objs[i],
                    start_id + i,
                    colors@,
                ),
            document.build.item@.len() == k,
            forall|i: int|
                0 <= i < k ==> {
                    &&& (#[trigger] document.build.item@[i]).objectid == start_id + i
                    &&& document.build.item@[i].partnumber is None
                },
        decreases objs.len() - k,
    {
        let object = &objects[k];
        let id = start_id + k;
        let (pid, pindex) = match object.color {
            Some(color) => {
                proof {
                    assert(colors_of(objs)[k as int] == object.color);
                    lemma_color_collected(colors_of(objs), k as int);
                }
                let index = match find_color(&colors, color) {
                    Some(index) => index,
                    None => 0,
                };
                (materials_id, Some(index))
            },
            None => (None, None),
        };
        let entry = XmlObject {
            id,
            partnumber: None,
            name: Some(object.name.clone()),
            pid,
            pindex,
            mesh: Some(to_xml_mesh(&object.mesh)),
        };
        document.resources.object.push(entry);
        document.build.item.push(Item { objectid: id, partnumber: None });
        k += 1;
    }
    document
}

/// The colors of a document's base materials are all different, and each
/// is the color of some object.
pub proof fn lemma_unique_colors_distinct(colors: Seq<Option<Color>>)
    ensures
        forall|i: int, j: int|
            0 <= i < j < unique_colors(colors).len() ==> unique_colors(colors)[i] != unique_colors(colors)[j],
        forall|i: int|
            0 <= i < unique_colors(colors).len() ==> exists|k: int|
                0 <= k < colors.len() && colors[k] == Some(#[trigger] unique_colors(colors)[i]),
    decreases colors.len(),
{
    if colors.len() > 0 {
        let earlier = unique_colors(colors.drop_last());
        lemma_unique_colors_distinct(colors.drop_last());
        assert forall|i: int| 0 <= i < unique_colors(colors).len() implies exists|k: int|
            0 <= k < colors.len() && colors[k] == Some(#[trigger] unique_colors(colors)[i]) by {
            if i < earlier.len() {
                let k = choose|k: int| 0 <= k < colors.drop_last().len() && colors.drop_last()[k] == Some(earlier[i]);
                assert(colors[k] == Some(unique_colors(colors)[i]));
            } else {
                assert(colors[colors.len() - 1] == Some(unique_colors(colors)[i]));
            }
        }
    }
}

/// In a document, a colored object's material reference resolves to a
/// base material that shows exactly the object's color.
pub proof fn lemma_color_reference_resolves<V>(objects: Seq<Object<V>>, metadata: Seq<Metadata>, doc: XmlModel<V>, k: int)
    requires
        document_of(objects, metadata, doc),
        0 <= k < objects.len() <= usize::MAX,
        objects[k].color is Some,
    ensures
        doc.resources.object@[k].pid == Some(1usize),
        doc.resources.basematerials matches Some(groups) && ({
            let j = doc.resources.object@[k].pindex.unwrap() as int;
            &&& groups@[0].id == 1
            &&& 0 <= j < groups@[0].base@.len()
            &&& groups@[0].base@[j].displaycolor@ == display_color(objects[k].color.unwrap())
        }),
{
    let colors = unique_colors(colors_of(objects));
    let c = objects[k].color.unwrap();
    assert(colors_of(objects)[k] == objects[k].color);
    lemma_color_collected(colors_of(objects), k);
    lemma_first_index_found(colors, c);
    assert(object_entry(doc.resources.object@[k], objects[k], first_object_id(colors) + k, colors));
    let j = first_index(colors, c);
    lemma_unique_colors_len(colors_of(objects));
    assert(doc.resources.object@[k].pindex == Some(j as usize));
    assert(colors.len() > 0);
    assert(materials_entry(doc.resources.basematerials, colors));
    let groups = doc.resources.basematerials.unwrap();
    assert(groups@[0].base@[j].displaycolor@ == display_color(colors[j]));
}

proof fn lemma_unique_colors_len(colors: Seq<Option<Color>>)
    ensures
        unique_colors(colors).len() <= colors.len(),
    decreases colors.len(),
{
    if colors.len() > 0 {
        lemma_unique_colors_len(colors.drop_last());
    }
}

proof fn lemma_first_index_found(colors: Seq<Color>, c: Color)
    requires
        colors.contains(c),
    ensures
        0 <= first_index(colors, c) < colors.len(),
        colors[first_index(colors, c)] == c,
    decreases colors.len(),
{
    if colors[0] != c {
        let i = choose|i: int| 0 <= i < colors.len() && colors[i] == c;
        assert(colors.drop_first()[i - 1] == c);
        lemma_first_index_found(colors.drop_first(), c);
    }
}

/// Each build item places the object resource at the same position, the
/// objects have different ids, and no object shares its id with the base
/// material group.
pub proof fn lemma_document_ids<V>(objects: Seq<Object<V>>, metadata: Seq<Metadata>, doc: XmlModel<V>)
    requires
        document_of(objects, metadata, doc),
    ensures
        forall|k: int|
            0 <= k < objects.len() ==> (#[trigger] doc.build.item@[k]).objectid == doc.resources.object@[k].id,
        forall|j: int, k: int|
            0 <= j < k < objects.len() ==> (#[trigger] doc.resources.object@[j]).id
                != (#[trigger] doc.resources.object@[k]).id,
        forall|k: int|
            0 <= k < objects.len() ==> (doc.resources.basematerials matches Some(groups) ==> groups@.len() > 0
                && (#[trigger] doc.resources.object@[k]).id != groups@[0].id),
{
    let colors = unique_colors(colors_of(objects));
    assert forall|k: int| 0 <= k < objects.len() implies (#[trigger] doc.build.item@[k]).objectid
        == doc.resources.object@[k].id by {
        assert(object_entry(doc.resources.object@[k], objects[k], first_object_id(colors) + k, colors));
    }
    assert forall|j: int, k: int| 0 <= j < k < objects.len() implies (#[trigger] doc.resources.object@[j]).id
        != (#[trigger] doc.resources.object@[k]).id by {
        assert(object_entry(doc.resources.object@[j], objects[j], first_object_id(colors) + j, colors));
        assert(object_entry(doc.resources.object@[k], objects[k], first_object_id(colors) + k, colors));
    }
    assert forall|k: int| 0 <= k < objects.len() implies (doc.resources.basematerials matches Some(groups)
        ==> groups@.len() > 0 && (#[trigger] doc.resources.object@[k]).id != groups@[0].id) by {
        assert(object_entry(doc.resources.object@[k], objects[k], first_object_id(colors) + k, colors));
    }
}

} // verus!
