use std::collections::BTreeSet;

use synthia::editor::{clicked_selection, layer_drop, leaf_ids_of, pressed_selection, EditorAction, EditorState, Tool};
use synthia::color::Color;
use synthia::model::{FontFamily, FontStyle, FontWeight, TextAlign, TextDecoration, TextProperties, TextSizeMode, 
    DesignDocument, Geometry, ImageFit, ImageProperties, LineProperties, ObjectKind, PathPoint, PathProperties, PointList, ShapeProperties, Stroke,
};

fn text_props(content: &str) -> TextProperties<f64> {
    TextProperties {
        content: content.to_string(),
        font_family: FontFamily::Inter,
        font_size: 24.0,
        font_weight: FontWeight::Regular,
        font_style: FontStyle::Regular,
        letter_spacing: 0.0,
        line_height: 1.2,
        text_decoration: TextDecoration::Plain,
        fill: Color { r: 0x11, g: 0x11, b: 0x11, a: 1.0 },
        text_align: TextAlign::Left,
        size_mode: TextSizeMode::Auto,
    }
}


fn shape() -> ShapeProperties<f64> {
    let black = Color { r: 0, g: 0, b: 0, a: 1.0 };
    ShapeProperties { fill: Color { r: 0xcc, g: 0xcc, b: 0xcc, a: 1.0 }, stroke: Stroke { enabled: false, color: black, width: 2.0 } }
}


fn geometry(x: f64) -> Geometry<f64> {
    Geometry { x, y: 0.0, width: 10.0, height: 10.0, rotation: 0.0, opacity: 1.0 }
}

fn editor() -> EditorState<f64> {
    EditorState::new(DesignDocument::new(800.0, 600.0, "#FFFFFF".to_string()), 1.0)
}

fn ids(state: &EditorState<f64>) -> Vec<u64> {
    state.document.objects.iter().map(|o| o.id).collect()
}

fn selection(state: &EditorState<f64>) -> Vec<u64> {
    state.selected_ids.iter().copied().collect()
}

#[test]
fn a_fresh_editor_is_clean_and_untitled() {
    let state = editor();
    assert_eq!(state.active_tool, Tool::Select);
    assert!(!state.is_dirty);
    assert!(state.fit_mode);
    assert_eq!(state.document_title, "Untitled");
    assert!(!state.history.can_undo());
}

#[test]
fn creating_selects_the_object_and_returns_to_select() {
    let mut state = editor();
    state.set_active_tool(Tool::Rectangle);
    let id = state.create_object(ObjectKind::Rectangle(shape()), geometry(1.0));
    assert_eq!(id, 1);
    assert_eq!(selection(&state), vec![1]);
    assert_eq!(state.active_tool, Tool::Select);
    assert_eq!(state.editing_text, None);
    assert!(state.is_dirty);
    let text = state.create_object(ObjectKind::Text(text_props("")), geometry(2.0));
    assert_eq!(state.editing_text, Some(text));
    assert_eq!(state.document.get(text).unwrap().name, "Text 2");
}

#[test]
fn undo_then_redo_gives_the_document_back() {
    let mut state = editor();
    let a = state.create_object(ObjectKind::Rectangle(shape()), geometry(1.0));
    state.commit_geometries(vec![(a, geometry(1.0), geometry(50.0))]);
    state.document.set_geometry(a, geometry(50.0));
    assert_eq!(state.document.get(a).unwrap().geometry.x, 50.0);
    state.undo();
    assert_eq!(state.document.get(a).unwrap().geometry.x, 1.0);
    assert_eq!(selection(&state), vec![a]);
    state.undo();
    assert!(state.document.objects.is_empty());
    assert!(state.selected_ids.is_empty());
    state.redo();
    state.redo();
    assert_eq!(state.document.get(a).unwrap().geometry.x, 50.0);
    state.redo();
    assert_eq!(state.history.undo_count(), 2);
}

#[test]
fn deleting_a_group_takes_its_members_and_undo_restores_order() {
    let mut state = editor();
    let a = state.create_object(ObjectKind::Rectangle(shape()), geometry(0.0));
    let group = state.create_object(ObjectKind::Rectangle(shape()), geometry(0.0));
    let b = state.create_object(ObjectKind::Ellipse(shape()), geometry(0.0));
    let c = state.create_object(ObjectKind::Ellipse(shape()), geometry(0.0));
    state.document.set_parent(b, Some(group));
    state.document.set_parent(c, Some(group));
    state.set_selection(BTreeSet::from([a, group]));
    let before = state.history.undo_count();
    state.delete_objects(vec![group]);
    assert_eq!(ids(&state), vec![a]);
    assert_eq!(selection(&state), vec![a]);
    assert_eq!(state.history.undo_count(), before + 1);
    state.undo();
    assert_eq!(ids(&state), vec![a, group, b, c]);
}

#[test]
fn deleting_nothing_records_nothing() {
    let mut state = editor();
    state.create_object(ObjectKind::Rectangle(shape()), geometry(0.0));
    state.mark_saved("/tmp/a.apollo".to_string(), "a".to_string());
    state.delete_objects(vec![99]);
    assert_eq!(state.history.undo_count(), 1);
    assert!(!state.is_dirty);
}

#[test]
fn copy_takes_group_members_in_id_order() {
    let mut state = editor();
    let group = state.create_object(ObjectKind::Rectangle(shape()), geometry(0.0));
    let member = state.create_object(ObjectKind::Ellipse(shape()), geometry(0.0));
    let other = state.create_object(ObjectKind::Ellipse(shape()), geometry(0.0));
    state.document.set_parent(member, Some(group));
    state.set_selection(BTreeSet::from([group, 77]));
    state.copy();
    assert_eq!(state.clipboard.iter().map(|o| o.id).collect::<Vec<_>>(), vec![group, member]);
    assert!(state.clipboard.iter().all(|o| o.id != other));
    assert!(!state.history.can_redo() && state.history.undo_count() == 3);
}

#[test]
fn a_blank_text_session_deletes_its_object() {
    let mut state = editor();
    let id = state.create_object(ObjectKind::Text(text_props("")), geometry(0.0));
    state.update_text_properties(id, text_props("  "), None);
    state.commit_text_edit(id, text_props(""), geometry(0.0), true, false);
    assert_eq!(state.editing_text, None);
    assert!(state.document.objects.is_empty());
    assert!(state.selected_ids.is_empty());
    state.undo();
    assert_eq!(ids(&state), vec![id]);
}

#[test]
fn a_text_session_with_content_is_one_step() {
    let mut state = editor();
    let id = state.create_object(ObjectKind::Text(text_props("")), geometry(0.0));
    state.update_text_properties(id, text_props("Hello"), Some(geometry(3.0)));
    state.commit_text_edit(id, text_props(""), geometry(0.0), true, true);
    assert_eq!(state.history.undo_count(), 2);
    state.undo();
    assert_eq!(state.document.get(id).unwrap().kind, ObjectKind::Text(text_props("")));
    assert_eq!(state.document.get(id).unwrap().geometry.x, 0.0);
}

#[test]
fn an_unchanged_text_session_records_nothing() {
    let mut state = editor();
    let id = state.create_object(ObjectKind::Text(text_props("Hi")), geometry(0.0));
    state.commit_text_edit(id, text_props("Hi"), geometry(0.0), false, false);
    assert_eq!(state.history.undo_count(), 1);
}

#[test]
fn text_properties_from_the_panel_are_one_step() {
    let mut state = editor();
    let id = state.create_object(ObjectKind::Text(text_props("a")), geometry(0.0));
    state.commit_text_properties(id, text_props("a"), text_props("b"), true, None);
    assert_eq!(state.document.get(id).unwrap().kind, ObjectKind::Text(text_props("b")));
    assert_eq!(state.history.undo_count(), 2);
    state.commit_text_properties(99, text_props("a"), text_props("b"), true, None);
    assert_eq!(state.history.undo_count(), 2);
    state.commit_text_resize(id, geometry(0.0), text_props("b"), text_props("b"), false, true);
    assert_eq!(state.history.undo_count(), 3);
}

#[test]
fn importing_an_image_names_it_after_the_file() {
    let mut state = editor();
    let (id, asset) = state.import_image(
        "photo.png".to_string(),
        "image/png".to_string(),
        640.0,
        480.0,
        "blob:x".to_string(),
        geometry(10.0),
    );
    assert_eq!((id, asset), (1, 1));
    let object = state.document.get(id).unwrap();
    assert_eq!(object.name, "photo.png");
    assert_eq!(object.kind, ObjectKind::Image(ImageProperties { asset_id: asset, fit: ImageFit::Fill }));
    assert_eq!(state.document.assets.get(asset).unwrap().reference, "blob:x");
    assert_eq!(selection(&state), vec![id]);
    state.undo();
    assert!(state.document.objects.is_empty());
    assert!(state.document.assets.get(asset).is_some());
}

#[test]
fn reorder_is_undoable() {
    let mut state = editor();
    let a = state.create_object(ObjectKind::Rectangle(shape()), geometry(0.0));
    let b = state.create_object(ObjectKind::Rectangle(shape()), geometry(0.0));
    state.reorder_object(a, 1);
    assert_eq!(ids(&state), vec![b, a]);
    state.undo();
    assert_eq!(ids(&state), vec![a, b]);
    let count = state.history.undo_count();
    state.reorder_object(42, 0);
    assert_eq!(state.history.undo_count(), count);
}

#[test]
fn canvas_size_and_background_are_undoable() {
    let mut state = editor();
    let a = state.create_object(ObjectKind::Rectangle(shape()), geometry(10.0));
    state.set_canvas_size((400.0, 300.0), true, vec![(a, geometry(10.0), geometry(5.0))]);
    assert_eq!((state.document.canvas_width, state.document.canvas_height), (400.0, 300.0));
    assert_eq!(state.document.get(a).unwrap().geometry.x, 5.0);
    state.undo();
    assert_eq!((state.document.canvas_width, state.document.canvas_height), (800.0, 600.0));
    assert_eq!(state.document.get(a).unwrap().geometry.x, 10.0);

    let count = state.history.undo_count();
    state.set_canvas_size((800.0, 600.0), false, Vec::new());
    assert_eq!(state.history.undo_count(), count);

    state.update_background("#111111".to_string());
    state.commit_background("#FFFFFF".to_string(), "#222222".to_string());
    assert_eq!(state.document.background, "#222222");
    state.undo();
    assert_eq!(state.document.background, "#FFFFFF");
    state.commit_background("#FFFFFF".to_string(), "#FFFFFF".to_string());
    assert_eq!(state.history.undo_count(), count);
}

#[test]
fn reset_canvas_defaults_records_only_what_differs() {
    let mut state = editor();
    state.reset_canvas_defaults((800.0, 600.0), false, "#FFFFFF".to_string());
    assert_eq!(state.history.undo_count(), 0);
    state.commit_background("#FFFFFF".to_string(), "#000000".to_string());
    state.set_canvas_size((100.0, 100.0), true, Vec::new());
    state.reset_canvas_defaults((800.0, 600.0), true, "#FFFFFF".to_string());
    assert_eq!(state.document.background, "#FFFFFF");
    assert_eq!(state.document.canvas_width, 800.0);
    assert_eq!(state.history.undo_count(), 3);
    state.undo();
    assert_eq!(state.document.background, "#000000");
    assert_eq!(state.document.canvas_width, 100.0);
}

#[test]
fn dirty_follows_the_undo_stack_and_files_reset_it() {
    let mut state = editor();
    state.reduce(EditorAction::SetZoom(2.0));
    assert!(!state.is_dirty);
    assert!(!state.fit_mode);
    state.reduce(EditorAction::CreateObject { kind: ObjectKind::Ellipse(shape()), geometry: geometry(0.0) });
    assert!(state.is_dirty);
    state.reduce(EditorAction::MarkSaved { path: "/tmp/x.apollo".to_string(), filename: "x".to_string() });
    assert!(!state.is_dirty);
    assert_eq!(state.file_path.as_deref(), Some("/tmp/x.apollo"));
    state.reduce(EditorAction::SetSelection(BTreeSet::new()));
    state.reduce(EditorAction::UpdateGeometry { id: 1, geometry: geometry(3.0) });
    assert!(!state.is_dirty);
    state.reduce(EditorAction::Undo);
    assert!(state.is_dirty);
    state.reduce(EditorAction::NewDocument { blank: DesignDocument::new(800.0, 600.0, String::new()), zoom: 1.0 });
    assert!(!state.is_dirty);
    assert!(!state.history.can_redo());
    assert_eq!(state.document_title, "Untitled");
    state.reduce(EditorAction::LoadDocument {
        document: DesignDocument::new(10.0, 10.0, String::new()),
        path: "/tmp/y.apollo".to_string(),
        filename: "y".to_string(),
        zoom: 1.0,
    });
    assert_eq!(state.document_title, "y");
    assert_eq!(state.document.canvas_width, 10.0);
}

#[test]
fn view_actions_leave_the_document_alone() {
    let mut state = editor();
    state.reduce(EditorAction::ToggleGroupExpanded(4));
    assert!(state.expanded_groups.contains(&4));
    state.reduce(EditorAction::ToggleGroupExpanded(4));
    assert!(state.expanded_groups.is_empty());
    state.reduce(EditorAction::SetFitMode(false));
    state.reduce(EditorAction::SyncFitZoom(0.5));
    assert_eq!(state.zoom, 0.5);
    assert!(!state.fit_mode);
    state.reduce(EditorAction::SetEditingText(Some(3)));
    assert_eq!(state.editing_text, Some(3));
    assert!(!state.is_dirty);
    assert!(state.is_selected(1) == false);
}

#[test]
fn commits_from_the_panel_undo_to_the_earlier_geometry() {
    let mut state = editor();
    let a = state.create_object(ObjectKind::Rectangle(shape()), geometry(1.0));
    let b = state.create_object(ObjectKind::Rectangle(shape()), geometry(2.0));
    state.commit_geometries(vec![(a, geometry(1.0), geometry(10.0)), (b, geometry(2.0), geometry(20.0))]);
    assert_eq!(state.document.get(a).unwrap().geometry.x, 10.0);
    assert_eq!(state.document.get(b).unwrap().geometry.x, 20.0);
    assert_eq!(state.history.undo_count(), 3);
    state.undo();
    assert_eq!(state.document.get(a).unwrap().geometry.x, 1.0);
    assert_eq!(state.document.get(b).unwrap().geometry.x, 2.0);
    assert_eq!(selection(&state), vec![a, b]);
    let count = state.history.undo_count();
    state.commit_geometries(Vec::new());
    assert_eq!(state.history.undo_count(), count);
}

#[test]
fn the_status_bar_counts_objects() {
    let mut state = editor();
    assert_eq!(state.object_count_label(), "0 objects");
    state.create_object(ObjectKind::Rectangle(shape()), geometry(0.0));
    assert_eq!(state.object_count_label(), "1 object");
    state.create_object(ObjectKind::Rectangle(shape()), geometry(0.0));
    assert_eq!(state.object_count_label(), "2 objects");
}

#[test]
fn the_toolbar_marks_unsaved_changes() {
    let mut state = editor();
    assert_eq!(state.display_title(), "Untitled");
    state.create_object(ObjectKind::Rectangle(shape()), geometry(0.0));
    assert_eq!(state.display_title(), "Untitled •");
    state.mark_saved("/tmp/poster.apollo".to_string(), "poster".to_string());
    assert_eq!(state.display_title(), "poster");
}

#[test]
fn layer_clicks_select_or_toggle() {
    let selected = BTreeSet::from([1, 2]);
    assert_eq!(clicked_selection(&selected, 3, false), BTreeSet::from([3]));
    assert_eq!(clicked_selection(&selected, 3, true), BTreeSet::from([1, 2, 3]));
    assert_eq!(clicked_selection(&selected, 2, true), BTreeSet::from([1]));
}

#[test]
fn layer_drops_reorder_siblings_only() {
    let mut state = editor();
    let a = state.create_object(ObjectKind::Rectangle(shape()), geometry(0.0));
    let b = state.create_object(ObjectKind::Rectangle(shape()), geometry(0.0));
    let c = state.create_object(ObjectKind::Rectangle(shape()), geometry(0.0));
    assert_eq!(layer_drop(&state.document, a, c), Some((a, 2)));
    assert_eq!(layer_drop(&state.document, a, a), None);
    assert_eq!(layer_drop(&state.document, a, 99), None);
    state.document.set_parent(b, Some(c));
    assert_eq!(layer_drop(&state.document, b, a), None);
    assert_eq!(layer_drop(&state.document, 99, a), Some((99, 0)));
}

fn image_editor() -> (EditorState<f64>, u64, u64) {
    let mut state = editor();
    let (id, asset) = state.import_image(
        "photo.png".to_string(),
        "image/png".to_string(),
        640.0,
        480.0,
        "blob:a".to_string(),
        geometry(0.0),
    );
    (state, id, asset)
}

#[test]
fn changing_the_fit_is_one_undo_step() {
    let (mut state, id, asset) = image_editor();
    let before = ImageProperties { asset_id: asset, fit: ImageFit::Fill };
    let after = ImageProperties { asset_id: asset, fit: ImageFit::Crop };
    state.reduce(EditorAction::CommitImageProperties { id, before, after });
    assert_eq!(state.document.get(id).unwrap().kind, ObjectKind::Image(after));
    assert_eq!(state.history.undo_count(), 2);
    state.undo();
    assert_eq!(state.document.get(id).unwrap().kind, ObjectKind::Image(before));
}

#[test]
fn an_unchanged_fit_records_nothing() {
    let (mut state, id, asset) = image_editor();
    let same = ImageProperties { asset_id: asset, fit: ImageFit::Fill };
    state.reduce(EditorAction::CommitImageProperties { id, before: same, after: same });
    assert_eq!(state.history.undo_count(), 1);
}

#[test]
fn replacing_an_image_registers_a_new_asset_and_keeps_the_fit() {
    let (mut state, id, asset) = image_editor();
    state.reduce(EditorAction::CommitImageProperties {
        id,
        before: ImageProperties { asset_id: asset, fit: ImageFit::Fill },
        after: ImageProperties { asset_id: asset, fit: ImageFit::Fit },
    });
    state.reduce(EditorAction::ReplaceImageAsset {
        id,
        filename: "other.png".to_string(),
        mime_type: "image/png".to_string(),
        natural_width: 10.0,
        natural_height: 20.0,
        reference: "blob:b".to_string(),
    });
    assert_eq!(state.document.get(id).unwrap().kind, ObjectKind::Image(ImageProperties { asset_id: 2, fit: ImageFit::Fit }));
    assert_eq!(state.document.assets.get(2).unwrap().reference, "blob:b");
    assert_eq!(state.document.get(id).unwrap().geometry, geometry(0.0));
    state.undo();
    assert_eq!(state.document.get(id).unwrap().kind, ObjectKind::Image(ImageProperties { asset_id: asset, fit: ImageFit::Fit }));
}

#[test]
fn replacing_a_non_image_does_nothing() {
    let mut state = editor();
    let id = state.create_object(ObjectKind::Rectangle(shape()), geometry(0.0));
    state.replace_image_asset(id, "x.png".to_string(), "image/png".to_string(), 1.0, 1.0, "blob:x".to_string());
    assert_eq!(state.history.undo_count(), 1);
    assert!(state.document.assets.get(1).is_none());
}

#[test]
fn grouping_makes_a_selected_expanded_group_and_undo_dissolves_it() {
    let mut state = editor();
    let a = state.create_object(ObjectKind::Rectangle(shape()), geometry(0.0));
    let b = state.create_object(ObjectKind::Ellipse(shape()), geometry(20.0));
    state.set_selection(BTreeSet::from([a, b, 99]));
    state.reduce(EditorAction::GroupSelected { geometry: geometry(0.0) });
    let group = 3;
    assert_eq!(ids(&state), vec![a, b, group]);
    let object = state.document.get(group).unwrap();
    assert_eq!(object.kind, ObjectKind::Group);
    assert_eq!(object.name, "Group 3");
    assert_eq!(state.document.get(a).unwrap().parent_id, Some(group));
    assert_eq!(state.document.get(b).unwrap().parent_id, Some(group));
    assert_eq!(selection(&state), vec![group]);
    assert!(state.expanded_groups.contains(&group));
    assert_eq!(state.history.undo_count(), 3);
    state.undo();
    assert_eq!(ids(&state), vec![a, b]);
    assert_eq!(state.document.get(a).unwrap().parent_id, None);
}

#[test]
fn grouping_one_object_does_nothing() {
    let mut state = editor();
    let a = state.create_object(ObjectKind::Rectangle(shape()), geometry(0.0));
    state.set_selection(BTreeSet::from([a, 42]));
    state.group_selected(geometry(0.0));
    assert_eq!(ids(&state), vec![a]);
    assert_eq!(state.history.undo_count(), 1);
}

#[test]
fn ungrouping_lifts_members_to_the_outer_group() {
    let mut state = editor();
    let outer = state.create_object(ObjectKind::Group, geometry(0.0));
    let inner = state.create_object(ObjectKind::Group, geometry(0.0));
    let a = state.create_object(ObjectKind::Rectangle(shape()), geometry(0.0));
    let b = state.create_object(ObjectKind::Ellipse(shape()), geometry(0.0));
    state.document.set_parent(inner, Some(outer));
    state.document.set_parent(a, Some(inner));
    state.document.set_parent(b, Some(inner));
    state.toggle_group_expanded(inner);
    state.set_selection(BTreeSet::from([inner, a]));
    state.reduce(EditorAction::UngroupSelected);
    assert_eq!(ids(&state), vec![outer, a, b]);
    assert_eq!(state.document.get(a).unwrap().parent_id, Some(outer));
    assert_eq!(state.document.get(b).unwrap().parent_id, Some(outer));
    assert_eq!(selection(&state), vec![a, b]);
    assert!(!state.expanded_groups.contains(&inner));
    assert_eq!(state.history.undo_count(), 5);
    state.undo();
    assert_eq!(ids(&state), vec![outer, inner, a, b]);
    assert_eq!(state.document.get(a).unwrap().parent_id, Some(inner));
}

#[test]
fn ungrouping_without_a_selected_group_does_nothing() {
    let mut state = editor();
    let a = state.create_object(ObjectKind::Rectangle(shape()), geometry(0.0));
    state.set_selection(BTreeSet::from([a]));
    state.ungroup_selected();
    assert_eq!(state.history.undo_count(), 1);
    assert_eq!(selection(&state), vec![a]);
}

#[test]
fn duplicating_a_group_copies_its_members_into_the_copy() {
    let mut state = editor();
    let group = state.create_object(ObjectKind::Group, geometry(0.0));
    let member = state.create_object(ObjectKind::Ellipse(shape()), geometry(5.0));
    let other = state.create_object(ObjectKind::Rectangle(shape()), geometry(0.0));
    state.document.set_parent(member, Some(group));
    let shifted = vec![(group, geometry(10.0)), (member, geometry(15.0))];
    state.reduce(EditorAction::DuplicateObjects { ids: vec![group], shifted });
    assert_eq!(ids(&state), vec![group, member, other, 4, 5]);
    let copy = state.document.get(4).unwrap();
    assert_eq!(copy.kind, ObjectKind::Group);
    assert_eq!(copy.name, "Group 1");
    assert_eq!(copy.geometry, geometry(10.0));
    let copied_member = state.document.get(5).unwrap();
    assert_eq!(copied_member.parent_id, Some(4));
    assert_eq!(copied_member.geometry, geometry(15.0));
    assert_eq!(selection(&state), vec![4, 5]);
    assert_eq!(state.history.undo_count(), 4);
    state.undo();
    assert_eq!(ids(&state), vec![group, member, other]);
}

#[test]
fn a_copy_without_a_shifted_geometry_keeps_its_source_geometry() {
    let mut state = editor();
    let a = state.create_object(ObjectKind::Rectangle(shape()), geometry(3.0));
    state.duplicate_objects(vec![a], vec![]);
    assert_eq!(state.document.get(2).unwrap().geometry, geometry(3.0));
    assert_eq!(state.document.get(2).unwrap().parent_id, None);
}

#[test]
fn paste_copies_the_clipboard_and_empty_paste_does_nothing() {
    let mut state = editor();
    state.reduce(EditorAction::Paste { shifted: vec![] });
    assert_eq!(state.history.undo_count(), 0);
    let a = state.create_object(ObjectKind::Rectangle(shape()), geometry(0.0));
    state.set_selection(BTreeSet::from([a]));
    state.copy();
    state.reduce(EditorAction::Paste { shifted: vec![(a, geometry(10.0))] });
    assert_eq!(ids(&state), vec![a, 2]);
    assert_eq!(state.document.get(2).unwrap().geometry, geometry(10.0));
    assert_eq!(selection(&state), vec![2]);
    state.paste(vec![(a, geometry(20.0))]);
    assert_eq!(ids(&state), vec![a, 2, 3]);
    assert_eq!(state.history.undo_count(), 3);
    state.undo();
    assert_eq!(ids(&state), vec![a, 2]);
}

#[test]
fn pressing_a_member_selects_its_outermost_group() {
    let mut state = editor();
    let outer = state.create_object(ObjectKind::Group, geometry(0.0));
    let inner = state.create_object(ObjectKind::Group, geometry(0.0));
    let leaf = state.create_object(ObjectKind::Rectangle(shape()), geometry(0.0));
    state.document.set_parent(inner, Some(outer));
    state.document.set_parent(leaf, Some(inner));
    assert_eq!(state.document.outermost_ancestor(leaf), outer);
    let none = BTreeSet::new();
    assert_eq!(pressed_selection(&state.document, &none, leaf, false), BTreeSet::from([outer]));
    let mut with_other = BTreeSet::new();
    with_other.insert(9);
    assert_eq!(pressed_selection(&state.document, &with_other, leaf, true), BTreeSet::from([9, outer]));
}

fn line() -> LineProperties<f64> {
    LineProperties {
        start: PathPoint { x: 0.0, y: 0.0 },
        end: PathPoint { x: 1.0, y: 1.0 },
        stroke_color: Color { r: 0, g: 0, b: 0, a: 1.0 },
        stroke_width: 2.0,
    }
}

#[test]
fn a_fill_change_is_one_undo_step_and_keeps_the_shape() {
    let mut state = editor();
    let id = state.create_object(ObjectKind::Ellipse(shape()), geometry(0.0));
    let red = ShapeProperties { fill: Color { r: 255, g: 0, b: 0, a: 1.0 }, ..shape() };
    state.reduce(EditorAction::UpdateShapeProperties { id, properties: red });
    assert_eq!(state.document.get(id).unwrap().kind, ObjectKind::Ellipse(red));
    assert_eq!(state.history.undo_count(), 1);
    state.reduce(EditorAction::CommitShapeProperties { id, before: shape(), after: red, changed: true });
    assert_eq!(state.history.undo_count(), 2);
    state.undo();
    assert_eq!(state.document.get(id).unwrap().kind, ObjectKind::Ellipse(shape()));
    state.redo();
    assert_eq!(state.document.get(id).unwrap().kind, ObjectKind::Ellipse(red));
}

#[test]
fn a_fill_change_leaves_other_kinds_alone() {
    let mut state = editor();
    let id = state.create_object(ObjectKind::Text(text_props("a")), geometry(0.0));
    state.update_shape_properties(id, shape());
    assert_eq!(state.document.get(id).unwrap().kind, ObjectKind::Text(text_props("a")));
    state.commit_shape_properties(id, shape(), shape(), false);
    assert_eq!(state.history.undo_count(), 1);
}

#[test]
fn a_line_stroke_change_is_undoable() {
    let mut state = editor();
    let id = state.create_object(ObjectKind::Line(line()), geometry(0.0));
    assert_eq!(state.document.get(id).unwrap().name, "Line 1");
    let wide = LineProperties { stroke_width: 6.0, ..line() };
    state.reduce(EditorAction::UpdateLineProperties { id, properties: wide });
    assert_eq!(state.document.get(id).unwrap().kind, ObjectKind::Line(wide));
    state.reduce(EditorAction::CommitLineProperties { id, before: line(), after: wide, changed: true });
    state.undo();
    assert_eq!(state.document.get(id).unwrap().kind, ObjectKind::Line(line()));
    let rect = state.create_object(ObjectKind::Rectangle(shape()), geometry(0.0));
    state.update_line_properties(rect, wide);
    assert_eq!(state.document.get(rect).unwrap().kind, ObjectKind::Rectangle(shape()));
}

#[test]
fn undoing_an_ungroup_of_two_groups_restores_the_layer_order() {
    let mut state = editor();
    let first = state.create_object(ObjectKind::Group, geometry(0.0));
    let a = state.create_object(ObjectKind::Rectangle(shape()), geometry(0.0));
    let second = state.create_object(ObjectKind::Group, geometry(0.0));
    let b = state.create_object(ObjectKind::Ellipse(shape()), geometry(0.0));
    state.document.set_parent(a, Some(first));
    state.document.set_parent(b, Some(second));
    let before = state.document.objects.clone();
    state.set_selection(BTreeSet::from([first, second]));
    state.reduce(EditorAction::UngroupSelected);
    assert_eq!(ids(&state), vec![a, b]);
    assert_eq!(selection(&state), vec![a, b]);
    assert_eq!(state.document.get(a).unwrap().parent_id, None);
    state.reduce(EditorAction::Undo);
    assert_eq!(state.document.objects, before);
}

#[test]
fn undoing_an_ungroup_of_nested_selected_groups_restores_every_group() {
    let mut state = editor();
    let inner = state.create_object(ObjectKind::Group, geometry(0.0));
    let outer = state.create_object(ObjectKind::Group, geometry(0.0));
    let leaf = state.create_object(ObjectKind::Rectangle(shape()), geometry(0.0));
    state.document.set_parent(inner, Some(outer));
    state.document.set_parent(leaf, Some(inner));
    let before = state.document.objects.clone();
    state.set_selection(BTreeSet::from([inner, outer]));
    state.ungroup_selected();
    assert_eq!(ids(&state), vec![leaf]);
    assert_eq!(state.document.get(leaf).unwrap().parent_id, None);
    state.undo();
    assert_eq!(state.document.objects, before);
}

#[test]
fn a_group_moves_as_its_non_group_descendants() {
    let mut state = editor();
    let outer = state.create_object(ObjectKind::Group, geometry(0.0));
    let inner = state.create_object(ObjectKind::Group, geometry(0.0));
    let a = state.create_object(ObjectKind::Rectangle(shape()), geometry(0.0));
    let b = state.create_object(ObjectKind::Ellipse(shape()), geometry(0.0));
    state.document.set_parent(inner, Some(outer));
    state.document.set_parent(a, Some(inner));
    state.document.set_parent(b, Some(outer));
    let mut leaves = leaf_ids_of(&state.document, outer);
    leaves.sort();
    assert_eq!(leaves, vec![a, b]);
    assert_eq!(leaf_ids_of(&state.document, a), vec![a]);
    assert_eq!(leaf_ids_of(&state.document, 99), vec![99]);
}

#[test]
fn a_drag_then_its_commit_is_one_undo_step() {
    let mut state = editor();
    let id = state.create_object(ObjectKind::Rectangle(shape()), geometry(0.0));
    let start = state.document.objects.clone();
    state.reduce(EditorAction::UpdateGeometry { id, geometry: geometry(5.0) });
    state.reduce(EditorAction::UpdateGeometry { id, geometry: geometry(7.0) });
    state.reduce(EditorAction::CommitGeometries(vec![(id, geometry(0.0), geometry(7.0))]));
    assert_eq!(state.history.undo_count(), 2);
    state.reduce(EditorAction::Undo);
    assert_eq!(state.document.objects, start);
}

#[test]
fn a_text_edit_session_is_one_undo_step() {
    let mut state = editor();
    let id = state.create_object(ObjectKind::Text(text_props("Hi")), geometry(0.0));
    let start = state.document.objects.clone();
    state.reduce(EditorAction::UpdateTextProperties { id, properties: text_props("Hi there"), resized: Some(geometry(3.0)) });
    state.reduce(EditorAction::CommitTextEdit { id, before: text_props("Hi"), before_geometry: geometry(0.0), changed: true, geometry_changed: true });
    assert_eq!(state.history.undo_count(), 2);
    state.reduce(EditorAction::Undo);
    assert_eq!(state.document.objects, start);
}

fn stroke() -> PathProperties<f64> {
    let end = PointList::Point(PathPoint { x: 1.0, y: 1.0 }, Box::new(PointList::Empty));
    PathProperties {
        points: PointList::Point(PathPoint { x: 0.0, y: 0.0 }, Box::new(end)),
        stroke_color: Color { r: 0, g: 0, b: 0, a: 1.0 },
        stroke_width: 2.0,
    }
}

#[test]
fn a_pencil_stroke_change_is_undoable_and_copies_keep_the_points() {
    let mut state = editor();
    let id = state.create_object(ObjectKind::Path(stroke()), geometry(0.0));
    assert_eq!(state.document.get(id).unwrap().name, "Path 1");
    let wide = PathProperties { stroke_width: 8.0, ..stroke() };
    state.reduce(EditorAction::UpdatePathProperties { id, properties: wide.clone() });
    state.reduce(EditorAction::CommitPathProperties { id, before: stroke(), after: wide.clone(), changed: true });
    assert_eq!(state.document.get(id).unwrap().kind, ObjectKind::Path(wide));
    state.undo();
    assert_eq!(state.document.get(id).unwrap().kind, ObjectKind::Path(stroke()));
    state.duplicate_objects(vec![id], vec![]);
    assert_eq!(state.document.get(2).unwrap().kind, ObjectKind::Path(stroke()));
}

#[test]
fn a_bold_toggle_is_one_undo_step() {
    let mut state = editor();
    let id = state.create_object(ObjectKind::Text(text_props("Hi")), geometry(0.0));
    let bold = TextProperties { font_weight: FontWeight::Bold, ..text_props("Hi") };
    state.reduce(EditorAction::CommitTextProperties { id, before: text_props("Hi"), after: bold.clone(), changed: true, resized: None });
    assert_eq!(state.document.get(id).unwrap().kind, ObjectKind::Text(bold));
    state.undo();
    assert_eq!(state.document.get(id).unwrap().kind, ObjectKind::Text(text_props("Hi")));
}
