use synthia::color::Color;
use synthia::model::{FontFamily, FontStyle, FontWeight, TextAlign, TextDecoration, TextProperties, TextSizeMode, DesignDocument, Geometry, ObjectKind, ShapeProperties, Stroke};

fn text_props(content: &str) -> TextProperties<f64> {
    TextProperties {
        content: content.to_string(),
        font_family: FontFamily::Inter,
        font_size: 24.0,
        font_weight: FontWeight::Regular,
        font_style: FontStyle::Regular,
        letter_spacing: 0.0,
        line_height: 1.2,
        text_decoration: TextDecoration::Plain,
        fill: Color { r: 0x11, g: 0x11, b: 0x11, a: 1.0 },
        text_align: TextAlign::Left,
        size_mode: TextSizeMode::Auto,
    }
}


fn shape() -> ShapeProperties<f64> {
    let black = Color { r: 0, g: 0, b: 0, a: 1.0 };
    ShapeProperties { fill: Color { r: 0xcc, g: 0xcc, b: 0xcc, a: 1.0 }, stroke: Stroke { enabled: false, color: black, width: 2.0 } }
}


fn geometry(x: f64, y: f64) -> Geometry<f64> {
    Geometry { x, y, width: 10.0, height: 20.0, rotation: 0.0, opacity: 1.0 }
}

fn blank() -> DesignDocument<f64> {
    DesignDocument::new(800.0, 600.0, "#FFFFFF".to_string())
}

#[test]
fn type_labels() {
    assert_eq!(ObjectKind::Rectangle(shape()).type_label(), "Rectangle");
    assert_eq!(ObjectKind::Ellipse(shape()).type_label(), "Ellipse");
    assert_eq!(ObjectKind::Text(text_props("hi")).type_label(), "Text");
    assert_eq!(ObjectKind::<f64>::ImagePlaceholder.type_label(), "Image");
}

#[test]
fn inserted_objects_get_counting_ids_and_default_names() {
    let mut document = blank();
    let a = document.insert(ObjectKind::Rectangle(shape()), geometry(0.0, 0.0));
    let b = document.insert(ObjectKind::Text(text_props("")), geometry(5.0, 5.0));
    assert_eq!((a, b), (1, 2));
    assert_eq!(document.last_id(), 2);
    assert_eq!(document.get(a).map(|o| o.name.clone()), Some("Rectangle 1".to_string()));
    assert_eq!(document.get(b).map(|o| o.name.clone()), Some("Text 2".to_string()));
    assert!(document.get(3).is_none());
    assert_eq!(document.position(b), Some(1));
}

#[test]
fn remove_and_reinsert_restore_z_order() {
    let mut document = blank();
    let a = document.insert(ObjectKind::Rectangle(shape()), geometry(0.0, 0.0));
    let b = document.insert(ObjectKind::Ellipse(shape()), geometry(1.0, 1.0));
    let c = document.insert(ObjectKind::Rectangle(shape()), geometry(2.0, 2.0));
    let (index, object) = document.remove_with_index(b).unwrap();
    assert_eq!(index, 1);
    assert_eq!(document.objects.iter().map(|o| o.id).collect::<Vec<_>>(), vec![a, c]);
    document.insert_at(index, object);
    assert_eq!(document.objects.iter().map(|o| o.id).collect::<Vec<_>>(), vec![a, b, c]);
    document.remove(a);
    document.remove(42);
    assert_eq!(document.objects.iter().map(|o| o.id).collect::<Vec<_>>(), vec![b, c]);
    document.insert_at(99, document.objects[0].clone());
    assert_eq!(document.objects.len(), 3);
}

#[test]
fn move_to_index_reports_the_old_position() {
    let mut document = blank();
    let a = document.insert(ObjectKind::Rectangle(shape()), geometry(0.0, 0.0));
    let b = document.insert(ObjectKind::Ellipse(shape()), geometry(1.0, 1.0));
    let c = document.insert(ObjectKind::Rectangle(shape()), geometry(2.0, 2.0));
    assert_eq!(document.move_to_index(a, 2), Some(0));
    assert_eq!(document.objects.iter().map(|o| o.id).collect::<Vec<_>>(), vec![b, c, a]);
    assert_eq!(document.move_to_index(c, 10), Some(1));
    assert_eq!(document.objects.iter().map(|o| o.id).collect::<Vec<_>>(), vec![b, a, c]);
    assert_eq!(document.move_to_index(9, 0), None);
}

#[test]
fn descendants_follow_nested_groups() {
    let mut document = blank();
    let group = document.insert(ObjectKind::Rectangle(shape()), geometry(0.0, 0.0));
    let inner = document.insert(ObjectKind::Rectangle(shape()), geometry(0.0, 0.0));
    let leaf = document.insert(ObjectKind::Ellipse(shape()), geometry(0.0, 0.0));
    let other = document.insert(ObjectKind::Ellipse(shape()), geometry(0.0, 0.0));
    document.set_parent(inner, Some(group));
    document.set_parent(leaf, Some(inner));
    let mut found = document.descendants_of(group);
    found.sort();
    assert_eq!(found, vec![inner, leaf]);
    assert_eq!(document.descendants_of(inner), vec![leaf]);
    assert!(document.descendants_of(other).is_empty());
}

#[test]
fn setters_touch_only_the_named_object() {
    let mut document = blank();
    let a = document.insert(ObjectKind::Rectangle(shape()), geometry(0.0, 0.0));
    let b = document.insert(ObjectKind::Rectangle(shape()), geometry(0.0, 0.0));
    document.set_geometry(a, geometry(7.0, 8.0));
    document.set_kind(b, ObjectKind::Text(text_props("x")));
    document.set_name(b, "Title".to_string());
    assert_eq!(document.get(a).unwrap().geometry.x, 7.0);
    assert_eq!(document.get(b).unwrap().geometry.x, 0.0);
    assert_eq!(document.get(b).unwrap().kind, ObjectKind::Text(text_props("x")));
    assert_eq!(document.get(b).unwrap().name, "Title");
    assert_eq!(document.get(a).unwrap().name, "Rectangle 1");
}

#[test]
fn well_formedness_check_finds_repeated_and_future_ids() {
    let mut document = blank();
    document.insert(ObjectKind::Rectangle(shape()), geometry(0.0, 0.0));
    document.insert(ObjectKind::Ellipse(shape()), geometry(0.0, 0.0));
    assert!(document.check_well_formed());
    document.objects[1].id = 1;
    assert!(!document.check_well_formed());
    document.objects[1].id = 9;
    assert!(!document.check_well_formed());
    document.next_id = 9;
    assert!(document.check_well_formed());
    assert!(blank().check_well_formed());
}
