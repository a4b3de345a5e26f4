use ferrocad::export::three_mf::document::to_document;
use ferrocad::export::three_mf::package::{content_types, relationships, MODEL_PATH};
use ferrocad::export::three_mf::xml::{Metadata, Model as XmlModel, Triangle, Unit};
use ferrocad::export::three_mf::{ThreeMfExport, ThreeMfMetadata};
use ferrocad::solid::cuboid::Corner;
use ferrocad::{Color, Cuboid, Mesh, Model, Object};

fn colored_model() -> (Model<Corner>, Color, Color) {
    let red = Color::rgb(200, 40, 40);
    let blue = Color::rgb(40, 40, 200);

    let mut model = Model::new();
    model.add(Object::new(String::from("body"), Cuboid::mesh_layout()).with_color(red));
    model.add(Object::new(String::from("lid"), Cuboid::mesh_layout()).with_color(blue));
    (model, red, blue)
}

fn plain_model() -> Model<Corner> {
    let mut model = Model::new();
    model.add(Object::new(String::from("body"), Cuboid::mesh_layout()));
    model
}

#[test]
fn mod_write_3mf_assigns_base_materials() {
    let (model, red, blue) = colored_model();
    let document = to_document(&model, Vec::new());

    let materials = &document
        .resources
        .basematerials
        .as_ref()
        .expect("materials")[0];
    let body = document
        .resources
        .object
        .iter()
        .find(|object| object.name.as_deref() == Some("body"))
        .expect("body");
    let lid = document
        .resources
        .object
        .iter()
        .find(|object| object.name.as_deref() == Some("lid"))
        .expect("lid");

    assert_eq!(body.pid, Some(materials.id));
    assert_eq!(lid.pid, Some(materials.id));
    assert_eq!(
        materials.base[body.pindex.expect("body pindex")].displaycolor,
        red.displaycolor()
    );
    assert_eq!(
        materials.base[lid.pindex.expect("lid pindex")].displaycolor,
        blue.displaycolor()
    );
}

#[test]
fn document_of_an_uncolored_model_has_no_materials() {
    let document = to_document(&plain_model(), Vec::new());
    assert_eq!(document.unit, Unit::Millimeter);
    assert!(document.resources.basematerials.is_none());
    assert_eq!(document.resources.object.len(), 1);
    let object = &document.resources.object[0];
    assert_eq!(object.id, 1);
    assert_eq!(object.name.as_deref(), Some("body"));
    assert_eq!(object.pid, None);
    assert_eq!(object.pindex, None);
    let mesh = object.mesh.as_ref().expect("mesh");
    assert_eq!(mesh.vertices.vertex.len(), 8);
    assert_eq!(mesh.triangles.triangle.len(), 12);
    assert_eq!(mesh.triangles.triangle[0], Triangle { v1: 0, v2: 2, v3: 1 });
    assert_eq!(document.build.item.len(), 1);
    assert_eq!(document.build.item[0].objectid, 1);
}

#[test]
fn colored_document_numbers_objects_after_the_materials() {
    let (model, _, _) = colored_model();
    let document = to_document(&model, Vec::new());
    assert_eq!(document.resources.object[0].id, 2);
    assert_eq!(document.resources.object[1].id, 3);
    assert_eq!(document.build.item[0].objectid, 2);
    assert_eq!(document.build.item[1].objectid, 3);
    assert_ne!(document.resources.object[0].pindex, document.resources.object[1].pindex);
}

#[test]
fn a_shared_color_becomes_one_material() {
    let red = Color::rgb(200, 40, 40);
    let mut model = Model::new();
    model.add(Object::new(String::from("a"), Mesh::<u8>::empty()).with_color(red));
    model.add(Object::new(String::from("b"), Mesh::<u8>::empty()));
    model.add(Object::new(String::from("c"), Mesh::<u8>::empty()).with_color(red));
    let document = to_document(&model, Vec::new());
    let materials = &document.resources.basematerials.as_ref().expect("materials")[0];
    assert_eq!(materials.id, 1);
    assert_eq!(materials.base.len(), 1);
    assert_eq!(materials.base[0].name, "#C82828");
    assert_eq!(document.resources.object[0].pindex, Some(0));
    assert_eq!(document.resources.object[1].pindex, None);
    assert_eq!(document.resources.object[2].pindex, Some(0));
}

#[test]
fn document_declares_core_and_material_namespaces() {
    let document: XmlModel<u8> = XmlModel::empty();
    assert_eq!(document.xmlns, "http://schemas.microsoft.com/3dmanufacturing/core/2015/02");
    assert_eq!(
        document.xmlns_m.as_deref(),
        Some("http://schemas.microsoft.com/3dmanufacturing/material/2015/02")
    );
    assert_eq!(Unit::default(), Unit::Millimeter);
}

#[test]
fn metadata_entries_keep_title_designer_description_order() {
    let metadata = ThreeMfMetadata {
        title: Some(String::from("bracket")),
        designer: None,
        description: Some(String::from("a part")),
    };
    assert_eq!(
        metadata.to_xml_entries(),
        vec![
            Metadata { name: String::from("Title"), value: Some(String::from("bracket")) },
            Metadata { name: String::from("Description"), value: Some(String::from("a part")) },
        ]
    );
    assert!(ThreeMfMetadata::new().to_xml_entries().is_empty());
    assert_eq!(ThreeMfMetadata::default(), ThreeMfMetadata::new());
}

#[test]
fn with_title_lands_in_the_document() {
    let model = plain_model();
    let document = ThreeMfExport::new(&model).with_title(String::from("bracket")).document();
    let title = document
        .metadata
        .iter()
        .find(|entry| entry.name == "Title")
        .expect("Title");
    assert_eq!(title.value.as_deref(), Some("bracket"));
}

#[test]
fn with_metadata_replaces_the_metadata() {
    let model = plain_model();
    let document = ThreeMfExport::new(&model)
        .with_title(String::from("old"))
        .with_metadata(ThreeMfMetadata {
            designer: Some(String::from("ferrocad")),
            ..ThreeMfMetadata::default()
        })
        .document();
    assert_eq!(
        document.metadata,
        vec![Metadata { name: String::from("Designer"), value: Some(String::from("ferrocad")) }]
    );
}

#[test]
fn builders_fill_each_entry() {
    let model = plain_model();
    let document = ThreeMfExport::new(&model)
        .with_description(String::from("d"))
        .with_designer(String::from("e"))
        .with_title(String::from("t"))
        .document();
    let names: Vec<&str> = document.metadata.iter().map(|m| m.name.as_str()).collect();
    assert_eq!(names, vec!["Title", "Designer", "Description"]);
}

#[test]
fn package_parts_point_at_the_model() {
    assert_eq!(MODEL_PATH, "3D/3dmodel.model");
    let rels = relationships(MODEL_PATH);
    assert!(rels.contains("Target=\"/3D/3dmodel.model\""));
    assert!(rels.starts_with("<?xml version=\"1.0\" encoding=\"utf-8\"?>"));
    assert!(rels.ends_with("</Relationships>\n"));
    let types = content_types();
    assert!(types.contains("Extension=\"model\""));
    assert!(types.contains("application/vnd.ms-package.3dmanufacturing-3dmodel+xml"));
    assert!(types.ends_with("</Types>\n"));
}

#[test]
fn build_items_place_each_object_once() {
    let (model, _, _) = colored_model();
    let document = to_document(&model, Vec::new());
    let materials_id = document.resources.basematerials.as_ref().expect("materials")[0].id;
    for (item, object) in document.build.item.iter().zip(&document.resources.object) {
        assert_eq!(item.objectid, object.id);
        assert_ne!(object.id, materials_id);
    }
    assert_ne!(document.resources.object[0].id, document.resources.object[1].id);
}
