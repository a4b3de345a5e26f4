use ferrocad::{
    Color, Infill, InfillPattern, Mesh, Model, Nozzle, Object, PrintSettings, Support, SupportKind,
    ToLength,
};

fn triangle() -> Mesh<u32> {
    Mesh::new(vec![0, 1, 2], vec![[0, 1, 2]])
}

#[test]
fn a_new_model_is_empty() {
    let model: Model<u32> = Model::new();
    assert!(model.objects().is_empty());
    let default: Model<u32> = Model::default();
    assert!(default.objects().is_empty());
}

#[test]
fn added_objects_keep_their_order() {
    let mut model = Model::new();
    model.add(Object::new(String::from("body"), triangle()));
    model.add(Object::new(String::from("lid"), triangle()).with_color(Color::rgb(1, 2, 3)));
    let objects = model.objects();
    assert_eq!(objects.len(), 2);
    assert_eq!(objects[0].name, "body");
    assert_eq!(objects[0].color, None);
    assert_eq!(objects[1].name, "lid");
    assert_eq!(objects[1].color, Some(Color::rgb(1, 2, 3)));
}

#[test]
fn builders_change_only_their_field() {
    let print = PrintSettings {
        nozzle: Some(Nozzle::D04),
        layer_height: Some(200.um()),
        infill: Some(Infill { pattern: Some(InfillPattern::Gyroid), density: Some(15) }),
        support: Some(Support::On {
            kind: SupportKind::Tree,
            on_build_plate_only: true,
            support_critical_regions_only: false,
            z_offset: None,
        }),
        walls: Some(3),
    };
    let object = Object::new(String::from("part"), triangle())
        .with_color(Color::rgba(9, 8, 7, 6))
        .with_print(print);
    assert_eq!(object.name, "part");
    assert_eq!(object.color, Some(Color::rgba(9, 8, 7, 6)));
    assert_eq!(object.print, print);
    assert_eq!(object.mesh.triangles, vec![[0, 1, 2]]);
}

#[test]
fn print_settings_default_to_unset() {
    let settings = PrintSettings::default();
    assert_eq!(settings.nozzle, None);
    assert_eq!(settings.layer_height, None);
    assert_eq!(settings.infill, None);
    assert_eq!(settings.support, None);
    assert_eq!(settings.walls, None);
    assert_eq!(Infill::default(), Infill { pattern: None, density: None });
    assert_eq!(SupportKind::default(), SupportKind::Normal);
}

#[test]
fn nozzle_diameters_are_in_tenths_of_a_millimeter() {
    assert_eq!(Nozzle::D02.diameter(), 200.um());
    assert_eq!(Nozzle::D04.diameter(), 400.um());
    assert_eq!(Nozzle::D06.diameter(), 600.um());
    assert_eq!(Nozzle::D08.diameter(), 800.um());
}
