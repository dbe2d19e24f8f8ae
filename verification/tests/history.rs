use synthia::history::{batch, Command, History};
use synthia::color::Color;
use synthia::model::{FontFamily, FontStyle, FontWeight, TextAlign, TextDecoration, TextProperties, TextSizeMode, DesignDocument, Geometry, ObjectKind, ShapeProperties, Stroke};

fn text_props(content: &str) -> TextProperties<f64> {
    TextProperties {
        content: content.to_string(),
        font_family: FontFamily::Inter,
        font_size: 24.0,
        font_weight: FontWeight::Regular,
        font_style: FontStyle::Regular,
        letter_spacing: 0.0,
        line_height: 1.2,
        text_decoration: TextDecoration::Plain,
        fill: Color { r: 0x11, g: 0x11, b: 0x11, a: 1.0 },
        text_align: TextAlign::Left,
        size_mode: TextSizeMode::Auto,
    }
}


fn shape() -> ShapeProperties<f64> {
    let black = Color { r: 0, g: 0, b: 0, a: 1.0 };
    ShapeProperties { fill: Color { r: 0xcc, g: 0xcc, b: 0xcc, a: 1.0 }, stroke: Stroke { enabled: false, color: black, width: 2.0 } }
}


fn geometry(x: f64) -> Geometry<f64> {
    Geometry { x, y: 0.0, width: 10.0, height: 10.0, rotation: 0.0, opacity: 1.0 }
}

fn ids(document: &DesignDocument<f64>) -> Vec<u64> {
    document.objects.iter().map(|o| o.id).collect()
}

#[test]
fn undo_and_redo_walk_the_stacks() {
    let mut document: DesignDocument<f64> = DesignDocument::new(800.0, 600.0, "#FFFFFF".to_string());
    let mut history: History<f64> = History::new();
    assert!(!history.can_undo() && !history.can_redo());
    let id = document.insert(ObjectKind::Rectangle(shape()), geometry(0.0));
    history.record(Command::CreateObject { object: document.get(id).unwrap().clone() });
    document.set_geometry(id, geometry(5.0));
    history.record(Command::SetGeometry { id, before: geometry(0.0), after: geometry(5.0) });
    assert_eq!(history.undo_count(), 2);

    assert_eq!(history.undo(&mut document), Some(vec![id]));
    assert_eq!(document.get(id).unwrap().geometry.x, 0.0);
    assert_eq!(history.undo(&mut document), Some(vec![id]));
    assert!(document.objects.is_empty());
    assert_eq!(history.undo(&mut document), None);
    assert!(history.can_redo());

    assert_eq!(history.redo(&mut document), Some(vec![id]));
    assert_eq!(history.redo(&mut document), Some(vec![id]));
    assert_eq!(document.get(id).unwrap().geometry.x, 5.0);
    assert_eq!(history.redo(&mut document), None);
}

#[test]
fn recording_discards_the_redo_stack() {
    let mut document: DesignDocument<f64> = DesignDocument::new(800.0, 600.0, String::new());
    let mut history: History<f64> = History::new();
    history.record(Command::SetBackground { before: String::new(), after: "#000000".to_string() });
    document.background = "#000000".to_string();
    history.undo(&mut document);
    assert_eq!(document.background, "");
    assert!(history.can_redo());
    history.record(Command::SetCanvasSize { before: (800.0, 600.0), after: (100.0, 100.0) });
    assert!(!history.can_redo());
}

#[test]
fn delete_undo_restores_each_object_at_its_index() {
    let mut document: DesignDocument<f64> = DesignDocument::new(800.0, 600.0, String::new());
    let a = document.insert(ObjectKind::Rectangle(shape()), geometry(0.0));
    let b = document.insert(ObjectKind::Ellipse(shape()), geometry(1.0));
    let c = document.insert(ObjectKind::Rectangle(shape()), geometry(2.0));
    let d = document.insert(ObjectKind::Ellipse(shape()), geometry(3.0));
    let removed = vec![(1, document.objects[1].clone()), (3, document.objects[3].clone())];
    let command = Command::DeleteObjects { removed };
    command.apply(&mut document);
    assert_eq!(ids(&document), vec![a, c]);
    command.unapply(&mut document);
    assert_eq!(ids(&document), vec![a, b, c, d]);
    assert_eq!(command.affected_ids(), vec![b, d]);
}

#[test]
fn reparent_and_reorder_invert() {
    let mut document: DesignDocument<f64> = DesignDocument::new(800.0, 600.0, String::new());
    let a = document.insert(ObjectKind::Rectangle(shape()), geometry(0.0));
    let b = document.insert(ObjectKind::Ellipse(shape()), geometry(1.0));
    let c = document.insert(ObjectKind::Rectangle(shape()), geometry(2.0));
    let reparent = Command::SetParent { changes: vec![(b, None, Some(a)), (c, None, Some(a))] };
    reparent.apply(&mut document);
    assert_eq!(document.get(b).unwrap().parent_id, Some(a));
    reparent.unapply(&mut document);
    assert_eq!(document.get(c).unwrap().parent_id, None);

    let reorder = Command::Reorder { id: a, before_index: 0, after_index: 2 };
    reorder.apply(&mut document);
    assert_eq!(ids(&document), vec![b, c, a]);
    reorder.unapply(&mut document);
    assert_eq!(ids(&document), vec![a, b, c]);
}

#[test]
fn batches_apply_in_order_and_undo_in_reverse() {
    let mut document: DesignDocument<f64> = DesignDocument::new(800.0, 600.0, String::new());
    let a = document.insert(ObjectKind::Text(text_props("one")), geometry(0.0));
    let step = batch(vec![
        Command::SetTextProperties { id: a, before: text_props("one"), after: text_props("two") },
        Command::SetGeometry { id: a, before: geometry(0.0), after: geometry(9.0) },
    ])
    .unwrap();
    step.apply(&mut document);
    assert_eq!(document.get(a).unwrap().kind, ObjectKind::Text(text_props("two")));
    assert_eq!(document.get(a).unwrap().geometry.x, 9.0);
    step.unapply(&mut document);
    assert_eq!(document.get(a).unwrap().kind, ObjectKind::Text(text_props("one")));
    assert_eq!(document.get(a).unwrap().geometry.x, 0.0);
    assert_eq!(step.affected_ids(), vec![a, a]);
}

#[test]
fn batch_of_one_is_the_command_itself() {
    assert!(batch::<f64>(Vec::new()).is_none());
    match batch::<f64>(vec![Command::Reorder { id: 1, before_index: 0, after_index: 1 }]) {
        Some(Command::Reorder { id: 1, .. }) => {}
        _ => panic!("a single command should not be wrapped"),
    }
    match batch::<f64>(vec![Command::SetBackground { before: String::new(), after: String::new() }, Command::Batch(Vec::new())]) {
        Some(Command::Batch(commands)) => assert_eq!(commands.len(), 2),
        _ => panic!("two commands should be batched"),
    }
}

#[test]
fn shape_and_line_commands_apply_and_unapply() {
    let mut document: DesignDocument<f64> = DesignDocument::new(800.0, 600.0, "#FFFFFF".to_string());
    let rect = document.insert(ObjectKind::Rectangle(shape()), geometry(0.0));
    let text = document.insert(ObjectKind::Text(text_props("t")), geometry(0.0));
    let blue = ShapeProperties { fill: Color { r: 0, g: 0, b: 255, a: 0.5 }, ..shape() };
    let set_fill = Command::SetShapeProperties { id: rect, before: shape(), after: blue };
    set_fill.apply(&mut document);
    assert_eq!(document.get(rect).unwrap().kind, ObjectKind::Rectangle(blue));
    set_fill.unapply(&mut document);
    assert_eq!(document.get(rect).unwrap().kind, ObjectKind::Rectangle(shape()));
    Command::SetShapeProperties { id: text, before: shape(), after: blue }.apply(&mut document);
    assert_eq!(document.get(text).unwrap().kind, ObjectKind::Text(text_props("t")));
    assert_eq!(set_fill.affected_ids(), vec![rect]);
}
