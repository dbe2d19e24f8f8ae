//! Editor state: the active tool, current selection, clipboard, Layers
//! panel expansion and undo/redo history, everything the UI needs beyond
//! the document itself. UI components only read this state and dispatch
//! `EditorAction`s to `EditorState::reduce`.
//!
//! Values of the scalar type `F` that an action needs (a clamped zoom, the
//! geometry of an imported image, whether a geometry changed) are computed
//! by the caller; the state transitions themselves live here.

use std::collections::BTreeSet;

use vstd::prelude::*;
use vstd::string::StringExecFns;

use crate::assets::Asset;
use crate::history::{batch, Command, History};
use crate::model::{
    ancestor_after, contains_id, copies_of, copy_of, find_index, has_ancestor, ids_unique, lifted_one, is_descendant, parent_of, DesignDocument, DesignObject, DocumentModel, Geometry, ImageFit, ImageProperties,
    LineProperties, ObjectId, ObjectKind, PathProperties, ShapeProperties, TextProperties,
};

verus! {

broadcast use vstd::std_specs::btree::group_btree_axioms;

#[derive(Clone, Copy, Debug, PartialEq, Eq, Structural)]
pub enum Tool {
    Select,
    Rectangle,
    Ellipse,
    Line,
    Pen,
    Text,
    Hand,
}

impl Default for Tool {
    /// Select.
    fn default() -> (tool: Self)
        ensures
            tool == Tool::Select,
    {
        Tool::Select
    }
}

#[derive(Clone, Copy, Debug, PartialEq, Eq, Structural)]
pub enum AlignMode {
    Left,
    HCenter,
    Right,
    Top,
    VCenter,
    Bottom,
}

#[derive(Clone, Copy, Debug, PartialEq, Eq, Structural)]
pub enum DistributeAxis {
    Horizontal,
    Vertical,
}

/// `ids` plus every descendant of any of them: what an operation on a
/// group (delete, copy) has to cover.
pub open spec fn with_descendants<F>(objects: Seq<DesignObject<F>>, ids: Set<ObjectId>) -> Set<ObjectId> {
    Set::new(
        |x: ObjectId|
            ids.contains(x) || exists|y: ObjectId|
                ids.contains(y) && contains_id(objects, x) && #[trigger] is_descendant(objects, x, y),
    )
}

/// The selection after a click on the Layers row of `id`: with Shift the
/// object joins the selection or leaves it; without, it becomes the whole
/// selection.
pub fn clicked_selection(selected: &BTreeSet<ObjectId>, id: ObjectId, shift: bool) -> (next: BTreeSet<ObjectId>)
    ensures
        shift && selected@.contains(id) ==> next@ == selected@.remove(id),
        shift && !selected@.contains(id) ==> next@ == selected@.insert(id),
        !shift ==> next@ == Set::<ObjectId>::empty().insert(id),
{
    if shift {
        let mut next = selected.clone();
        if !next.remove(&id) {
            next.insert(id);
        }
        next
    } else {
        let mut next = BTreeSet::new();
        next.insert(id);
        next
    }
}

/// The selection after pressing on the object `id` on the canvas with the
/// Select tool: the press stands for the outermost group holding `id`
/// (`top`). With Shift, `top` joins the selection or leaves it. Without,
/// `top` becomes the whole selection unless it is already part of a larger
/// one, which is kept so that the whole selection can be dragged.
pub open spec fn pressed_selection_of(selected: Set<ObjectId>, top: ObjectId, shift: bool) -> Set<ObjectId> {
    if shift {
        if selected.contains(top) { selected.remove(top) } else { selected.insert(top) }
    } else if !selected.contains(top) || selected.len() == 1 {
        Set::empty().insert(top)
    } else {
        selected
    }
}

/// The selection after pressing on the object `id` on the canvas; see
/// `pressed_selection_of`.
pub fn pressed_selection<F: Copy>(document: &DesignDocument<F>, selected: &BTreeSet<ObjectId>, id: ObjectId, shift: bool) -> (next: BTreeSet<ObjectId>)
    ensures
        next@ == pressed_selection_of(selected@, ancestor_after(document@.objects, id, document@.objects.len()), shift),
{
    let top = document.outermost_ancestor(id);
    if shift {
        clicked_selection(selected, top, true)
    } else if !selected.contains(&top) || selected.len() == 1 {
        clicked_selection(selected, top, false)
    } else {
        selected.clone()
    }
}

/// What delete, duplicate and copy cover takes the objects asked for and,
/// with every object it takes, the members of that object (and so, in
/// turn, theirs).
pub proof fn lemma_with_descendants_closed<F>(objects: Seq<DesignObject<F>>, ids: Set<ObjectId>, x: ObjectId, y: ObjectId)
    ensures
        ids.contains(y) ==> with_descendants(objects, ids).contains(y),
        with_descendants(objects, ids).contains(y) && contains_id(objects, x) && parent_of(objects, x) == Some(y)
            ==> with_descendants(objects, ids).contains(x),
{
    if with_descendants(objects, ids).contains(y) && contains_id(objects, x) && parent_of(objects, x) == Some(y) {
        assert(has_ancestor(objects, x, y, 0));
        if ids.contains(y) {
            assert(is_descendant(objects, x, y));
        } else {
            let z = choose|z: ObjectId| ids.contains(z) && contains_id(objects, y) && #[trigger] is_descendant(objects, y, z);
            let k = choose|k: nat| has_ancestor(objects, y, z, k);
            assert(has_ancestor(objects, x, z, k + 1));
            assert(is_descendant(objects, x, z));
        }
    }
}

/// Pressing on the canvas without Shift: the pressed object's outermost
/// group `top` ends up selected; a selection of two or more ids that
/// already holds `top` is kept whole (so it can be dragged together);
/// otherwise `top` alone is selected. With Shift, `top` joins the selection
/// or leaves it and nothing else changes.
pub proof fn lemma_pressed_selection(selected: Set<ObjectId>, top: ObjectId, shift: bool)
    requires
        selected.finite(),
    ensures
        !shift && selected.contains(top) && selected.len() >= 2 ==> pressed_selection_of(selected, top, shift) == selected,
        !shift && !(selected.contains(top) && selected.len() >= 2) ==> forall|x: ObjectId|
            #[trigger] pressed_selection_of(selected, top, shift).contains(x) <==> x == top,
        shift ==> pressed_selection_of(selected, top, shift).contains(top) == !selected.contains(top),
        shift ==> forall|x: ObjectId|
            x != top ==> (#[trigger] pressed_selection_of(selected, top, shift).contains(x) <==> selected.contains(x)),
{
    if !shift && selected.contains(top) && selected.len() < 2 {
        assert(selected.len() == 1) by {
            if selected.len() == 0 {
                assert(selected.contains(top));
            }
        }
        assert(selected.remove(top).len() == 0);
        assert forall|x: ObjectId| selected.contains(x) implies x == top by {
            if x != top {
                assert(selected.remove(top).contains(x));
            }
        }
    }
}

/// A press on an object outside any group stands for that object itself;
/// a press on a member of a top-level group stands for the group.
pub proof fn lemma_press_target<F>(objects: Seq<DesignObject<F>>, id: ObjectId)
    ensures
        parent_of(objects, id) is None ==> ancestor_after(objects, id, objects.len()) == id,
        (parent_of(objects, id) matches Some(g) && parent_of(objects, g) is None && objects.len() >= 2) ==> ancestor_after(
            objects,
            id,
            objects.len(),
        ) == parent_of(objects, id)->0,
{
    let n = objects.len();
    if n >= 2 {
        if let Some(g) = parent_of(objects, id) {
            assert(ancestor_after(objects, id, n) == ancestor_after(objects, g, (n - 1) as nat));
            if parent_of(objects, g) is None {
                assert(ancestor_after(objects, g, (n - 1) as nat) == g);
            }
        }
    }
}

/// Dropping the Layers row of `source` onto the row of `target` moves
/// `source` to `target`'s position in z-order, for siblings only (two
/// different objects in the same group, or both outside any group).
/// Returns the reorder to make, if any.
pub fn layer_drop<F: Copy>(document: &DesignDocument<F>, source: ObjectId, target: ObjectId) -> (reorder: Option<(ObjectId, usize)>)
    ensures
        match find_index(document@.objects, target) {
            Some(i) => reorder == (if source != target && parent_of(document@.objects, source) == document@.objects[i].parent_id {
                Some((source, i as usize))
            } else {
                None
            }),
            None => reorder is None,
        },
{
    let target_index = match document.position(target) {
        Some(i) => i,
        None => return None,
    };
    let own_parent = document.objects[target_index].parent_id;
    let source_parent = match document.get(source) {
        Some(object) => object.parent_id,
        None => None,
    };
    if source != target && source_parent == own_parent {
        Some((source, target_index))
    } else {
        None
    }
}

/// Strictly increasing.
pub open spec fn sorted_ids(s: Seq<ObjectId>) -> bool {
    forall|a: int, b: int| 0 <= a < b < s.len() ==> s[a] < s[b]
}

/// Inserts `x` into the sorted list `v` unless it is already there.
pub fn insert_sorted(v: &mut Vec<ObjectId>, x: ObjectId)
    requires
        sorted_ids(old(v)@),
    ensures
        sorted_ids(final(v)@),
        final(v)@.to_set() == old(v)@.to_set().insert(x),
{
    let mut i: usize = 0;
    while i < v.len() && v[i] < x
        invariant
            i <= v.len(),
            forall|j: int| 0 <= j < i ==> v@[j] < x,
        decreases v.len() - i,
    {
        i += 1;
    }
    if i < v.len() && v[i] == x {
        assert(v@.to_set().insert(x) =~= v@.to_set());
        return;
    }
    let ghost before = v@;
    v.insert(i, x);
    assert(v@.to_set() =~= before.to_set().insert(x)) by {
        assert forall|y: ObjectId| #[trigger] v@.to_set().contains(y) <==> before.to_set().insert(x).contains(y) by {
            if v@.contains(y) {
                let k = choose|k: int| 0 <= k < v@.len() && v@[k] == y;
                if k < i {
                    assert(before[k] == y);
                } else if k > i {
                    assert(before[k - 1] == y);
                }
            }
            if before.contains(y) {
                let k = choose|k: int| 0 <= k < before.len() && before[k] == y;
                if k < i {
                    assert(v@[k] == y);
                } else {
                    assert(v@[k + 1] == y);
                }
            }
            if y == x {
                assert(v@[i as int] == x);
            }
        }
    }
}

/// The ids of `set`, each once.
pub fn ids_of(set: &BTreeSet<ObjectId>) -> (ids: Vec<ObjectId>)
    ensures
        ids@.to_set() == set@,
        ids@.no_duplicates(),
{
    let mut ids: Vec<ObjectId> = Vec::new();
    for x in it: set.iter()
        invariant
            ids@ == it.seq().take(it.index()).unref(),
            it.seq().unref().to_set() == set@,
            it.seq().unref().no_duplicates(),
            it.index() == it.seq().len() ==> ids@ == it.seq().unref(),
    {
        ids.push(*x);
        assert(it.seq().take(it.index() + 1).unref() =~= ids@);
        assert(it.seq().take(it.seq().len() as int) =~= it.seq());
    }
    ids
}

/// `ids` plus every descendant of any of them, sorted, each once.
pub fn expand_with_descendants<F: Copy>(document: &DesignDocument<F>, ids: &Vec<ObjectId>) -> (all: Vec<ObjectId>)
    requires
        document@.well_formed(),
    ensures
        all@.to_set() == with_descendants(document@.objects, ids@.to_set()),
        sorted_ids(all@),
{
    let ghost target = with_descendants(document@.objects, ids@.to_set());
    let mut all: Vec<ObjectId> = Vec::new();
    for k in 0..ids.len()
        invariant
            document@.well_formed(),
            target == with_descendants(document@.objects, ids@.to_set()),
            sorted_ids(all@),
            all@.to_set() == Set::new(
                |x: ObjectId|
                    exists|a: int|
                        0 <= a < k && (x == ids@[a] || (contains_id(document@.objects, x) && is_descendant(
                            document@.objects,
                            x,
                            #[trigger] ids@[a],
                        ))),
            ),
    {
        let ghost before = all@.to_set();
        insert_sorted(&mut all, ids[k]);
        let found = document.descendants_of(ids[k]);
        for j in 0..found.len()
            invariant
                k < ids@.len(),
                sorted_ids(all@),
                all@.to_set() == before.insert(ids@[k as int]).union(Set::new(|x: ObjectId| exists|i: int| 0 <= i < j && found@[i] == x)),
        {
            insert_sorted(&mut all, found[j]);
            assert(all@.to_set() =~= before.insert(ids@[k as int]).union(Set::new(|x: ObjectId| exists|i: int| 0 <= i < j + 1 && found@[i] == x))) by {
                assert(found@[j as int] == found@[j as int]);
            }
        }
        proof {
            assert(all@.to_set() =~= Set::new(
                |x: ObjectId|
                    exists|a: int|
                        0 <= a < k + 1 && (x == ids@[a] || (contains_id(document@.objects, x) && is_descendant(
                            document@.objects,
                            x,
                            #[trigger] ids@[a],
                        ))),
            )) by {
                assert forall|x: ObjectId| all@.to_set().contains(x) implies exists|a: int|
                    0 <= a < k + 1 && (x == ids@[a] || (contains_id(document@.objects, x) && is_descendant(
                        document@.objects,
                        x,
                        #[trigger] ids@[a],
                    ))) by {
                    if !before.contains(x) && x != ids@[k as int] {
                        let i = choose|i: int| 0 <= i < found@.len() && found@[i] == x;
                        assert(found@.contains(x));
                    }
                }
                assert forall|x: ObjectId| (exists|a: int|
                    0 <= a < k + 1 && (x == ids@[a] || (contains_id(document@.objects, x) && is_descendant(
                        document@.objects,
                        x,
                        #[trigger] ids@[a],
                    )))) implies all@.to_set().contains(x) by {
                    let a = choose|a: int|
                        0 <= a < k + 1 && (x == ids@[a] || (contains_id(document@.objects, x) && is_descendant(
                            document@.objects,
                            x,
                            #[trigger] ids@[a],
                        )));
                    if a == k && x != ids@[k as int] {
                        assert(found@.contains(x));
                        let i = choose|i: int| 0 <= i < found@.len() && found@[i] == x;
                        assert(exists|i: int| 0 <= i < found@.len() && found@[i] == x);
                    }
                }
            }
        }
    }
    proof {
        assert(all@.to_set() =~= target) by {
            assert forall|x: ObjectId| #[trigger] target.contains(x) implies all@.to_set().contains(x) by {
                if ids@.contains(x) {
                    let a = choose|a: int| 0 <= a < ids@.len() && ids@[a] == x;
                    assert(0 <= a < ids@.len() && x == ids@[a]);
                } else {
                    let y = choose|y: ObjectId| ids@.contains(y) && contains_id(document@.objects, x) && #[trigger] is_descendant(document@.objects, x, y);
                    let a = choose|a: int| 0 <= a < ids@.len() && ids@[a] == y;
                    assert(0 <= a < ids@.len() && contains_id(document@.objects, x) && is_descendant(document@.objects, x, ids@[a]));
                }
            }
            assert forall|x: ObjectId| #[trigger] all@.to_set().contains(x) implies target.contains(x) by {
                let a = choose|a: int|
                    0 <= a < ids@.len() && (x == ids@[a] || (contains_id(document@.objects, x) && is_descendant(
                        document@.objects,
                        x,
                        #[trigger] ids@[a],
                    )));
                assert(ids@.contains(ids@[a]));
            }
        }
    }
    all
}

pub struct EditorState<F> {
    pub document: DesignDocument<F>,
    pub selected_ids: BTreeSet<ObjectId>,
    pub active_tool: Tool,
    pub history: History<F>,
    pub clipboard: Vec<DesignObject<F>>,
    /// Which groups are expanded in the Layers panel. Purely a UI concern,
    /// never part of undo/redo.
    pub expanded_groups: BTreeSet<ObjectId>,
    /// The text object in inline edit mode, if any.
    pub editing_text: Option<ObjectId>,
    /// Whether `document` differs from what is on disk (or, for a
    /// never-saved document, from blank).
    pub is_dirty: bool,
    /// View-only zoom level.
    pub zoom: F,
    /// Whether the viewport keeps `zoom` fitted to the workspace.
    pub fit_mode: bool,
    /// Where `document` was last saved to or opened from.
    pub file_path: Option<String>,
    /// The document's name as shown in the toolbar.
    pub document_title: String,
}


/// The fields no document action touches are as they were.
pub open spec fn same_ui<F>(a: &EditorState<F>, b: &EditorState<F>) -> bool {
    &&& same_view(a, b)
    &&& b.editing_text == a.editing_text
}

/// The tool, clipboard, Layers panel, viewport and file fields are as they
/// were.
pub open spec fn same_view<F>(a: &EditorState<F>, b: &EditorState<F>) -> bool {
    &&& b.active_tool == a.active_tool
    &&& b.clipboard@ == a.clipboard@
    &&& b.expanded_groups@ == a.expanded_groups@
    &&& b.zoom == a.zoom
    &&& b.fit_mode == a.fit_mode
    &&& b.file_path == a.file_path
    &&& b.document_title == a.document_title
}

/// The document and its assets are as they were.
pub open spec fn same_document<F>(a: &EditorState<F>, b: &EditorState<F>) -> bool {
    &&& b.document@ == a.document@
    &&& b.document.assets == a.document.assets
}

/// The dirty flag follows the undo stack: it is set once a step was
/// recorded, undone or redone (the undo count changed), and otherwise kept.
pub open spec fn dirty_follows_history<F>(a: &EditorState<F>, b: &EditorState<F>) -> bool {
    b.is_dirty == (a.is_dirty || b.history@.undo.len() != a.history@.undo.len())
}

/// Only the selection changed.
pub open spec fn only_selection_changed<F>(a: &EditorState<F>, b: &EditorState<F>) -> bool {
    &&& same_ui(a, b)
    &&& same_document(a, b)
    &&& b.history@ == a.history@
    &&& b.is_dirty == a.is_dirty
}

impl<F: Copy> EditorState<F> {
    /// The history describes how the document was reached.
    pub open spec fn history_consistent(&self) -> bool {
        crate::history::consistent(self.history@, self.document@)
    }

    /// A fresh editor on `document`: nothing selected, the Select tool,
    /// empty history, not dirty, fit mode on, titled "Untitled".
    pub fn new(document: DesignDocument<F>, zoom: F) -> (state: Self)
        ensures
            state.document == document,
            state.selected_ids@.len() == 0,
            state.active_tool == Tool::Select,
            state.history@.undo.len() == 0,
            state.history@.redo.len() == 0,
            state.clipboard@.len() == 0,
            state.expanded_groups@.len() == 0,
            state.editing_text is None,
            !state.is_dirty,
            state.zoom == zoom,
            state.fit_mode,
            state.file_path is None,
            state.document_title@ == "Untitled"@,
    {
        let title = String::from_str("Untitled");
        proof {
            reveal_strlit("Untitled");
        }
        EditorState {
            document,
            selected_ids: BTreeSet::new(),
            active_tool: Tool::Select,
            history: History::new(),
            clipboard: Vec::new(),
            expanded_groups: BTreeSet::new(),
            editing_text: None,
            is_dirty: false,
            zoom,
            fit_mode: true,
            file_path: None,
            document_title: title,
        }
    }

    /// The status bar's object count: "1 object", "3 objects".
    pub fn object_count_label(&self) -> (label: String)
        ensures
            label@ == crate::text::decimal(self.document@.objects.len()) + " object"@ + (if self.document@.objects.len() == 1 {
                ""@
            } else {
                "s"@
            }),
    {
        let count = self.document.objects.len();
        let mut label = String::new();
        crate::text::push_decimal(&mut label, count as u64);
        label.append(" object");
        if count != 1 {
            label.append("s");
        }
        proof {
            reveal_strlit(" object");
            reveal_strlit("s");
            reveal_strlit("");
        }
        assert(label@ =~= crate::text::decimal(self.document@.objects.len()) + " object"@ + (if count == 1 {
            ""@
        } else {
            "s"@
        }));
        label
    }

    /// The document's name as the toolbar shows it: marked with " •" while
    /// there are unsaved changes.
    pub fn display_title(&self) -> (title: String)
        ensures
            title@ == self.document_title@ + (if self.is_dirty { " •"@ } else { ""@ }),
    {
        let mut title = self.document_title.clone();
        if self.is_dirty {
            title.append(" •");
        }
        proof {
            reveal_strlit(" •");
            reveal_strlit("");
        }
        assert(title@ =~= self.document_title@ + (if self.is_dirty { " •"@ } else { ""@ }));
        title
    }

    pub fn is_selected(&self, id: ObjectId) -> (b: bool)
        ensures
            b == self.selected_ids@.contains(id),
    {
        self.selected_ids.contains(&id)
    }

    pub fn set_active_tool(&mut self, tool: Tool)
        ensures
            after_set_active_tool(&*old(self), &*final(self), tool),
    {
        self.active_tool = tool;
    }

    pub fn set_selection(&mut self, ids: BTreeSet<ObjectId>)
        ensures
            after_set_selection(&*old(self), &*final(self), ids),
    {
        self.selected_ids = ids;
    }

    /// Opens or closes a group in the Layers panel.
    pub fn toggle_group_expanded(&mut self, id: ObjectId)
        ensures
            after_toggle_group_expanded(&*old(self), &*final(self), id),
    {
        if !self.expanded_groups.remove(&id) {
            self.expanded_groups.insert(id);
            assert(self.expanded_groups@ =~= old(self).expanded_groups@.insert(id));
        } else {
            assert(self.expanded_groups@ =~= old(self).expanded_groups@.remove(id));
        }
    }

    /// Enters (`Some`) or leaves (`None`) inline text editing, without
    /// touching history.
    pub fn set_editing_text(&mut self, id: Option<ObjectId>)
        ensures
            after_set_editing_text(&*old(self), &*final(self), id),
    {
        self.editing_text = id;
    }
}


/// The entries `(index, object)` of the first `n` objects whose ids are in
/// `ids`, in z-order.
pub open spec fn entries_in<F>(objects: Seq<DesignObject<F>>, ids: Set<ObjectId>, n: int) -> Seq<(usize, DesignObject<F>)>
    decreases n,
{
    if n <= 0 {
        Seq::empty()
    } else if ids.contains(objects[n - 1].id) {
        entries_in(objects, ids, n - 1).push(((n - 1) as usize, objects[n - 1]))
    } else {
        entries_in(objects, ids, n - 1)
    }
}

proof fn lemma_entries_in_match<F>(objects: Seq<DesignObject<F>>, ids: Set<ObjectId>, n: int)
    requires
        0 <= n <= objects.len(),
        objects.len() <= usize::MAX,
    ensures
        crate::history::removal_matches(objects, entries_in(objects, ids, n)),
        forall|k: int| 0 <= k < entries_in(objects, ids, n).len() ==> (#[trigger] entries_in(objects, ids, n)[k]).0 < n,
    decreases n,
{
    if n > 0 {
        lemma_entries_in_match(objects, ids, n - 1);
    }
}

/// The objects with the ids in `ids` that the document holds, in the order
/// of `ids`.
pub open spec fn objects_for<F>(objects: Seq<DesignObject<F>>, ids: Seq<ObjectId>) -> Seq<DesignObject<F>>
    decreases ids.len(),
{
    if ids.len() == 0 {
        Seq::empty()
    } else {
        let rest = objects_for(objects, ids.drop_last());
        match find_index(objects, ids.last()) {
            Some(i) => rest.push(objects[i]),
            None => rest,
        }
    }
}

/// The document after setting, in order, each change's later geometry.
pub open spec fn geometry_each<F>(objects: Seq<DesignObject<F>>, changes: Seq<(ObjectId, Geometry<F>, Geometry<F>)>) -> Seq<DesignObject<F>>
    decreases changes.len(),
{
    if changes.len() == 0 {
        objects
    } else {
        crate::model::with_geometry(geometry_each(objects, changes.drop_last()), changes.last().0, changes.last().2)
    }
}

/// The undo step for a set of geometry changes.
pub open spec fn geometry_commands<F>(changes: Seq<(ObjectId, Geometry<F>, Geometry<F>)>) -> Seq<Command<F>> {
    changes.map_values(|c: (ObjectId, Geometry<F>, Geometry<F>)| Command::SetGeometry { id: c.0, before: c.1, after: c.2 })
}

/// Each change's earlier geometry is the one its object has when the change
/// comes, the changes before it done.
pub open spec fn geometry_chain_valid<F>(objects: Seq<DesignObject<F>>, changes: Seq<(ObjectId, Geometry<F>, Geometry<F>)>) -> bool
    decreases changes.len(),
{
    if changes.len() == 0 {
        true
    } else {
        let earlier = geometry_each(objects, changes.drop_last());
        &&& geometry_chain_valid(objects, changes.drop_last())
        &&& match find_index(earlier, changes.last().0) {
            Some(i) => earlier[i].geometry == changes.last().1,
            None => true,
        }
    }
}

/// The geometry commands do to a document what `geometry_each` says, and
/// are valid where they come exactly when the chain of earlier geometries
/// matches.
proof fn lemma_geometry_commands<F>(d: DocumentModel<F>, changes: Seq<(ObjectId, Geometry<F>, Geometry<F>)>)
    ensures
        crate::history::apply_all(geometry_commands(changes), d) == (DocumentModel { objects: geometry_each(d.objects, changes), ..d }),
        crate::history::valid_all(geometry_commands(changes), d) == geometry_chain_valid(d.objects, changes),
    decreases changes.len(),
{
    let cs = geometry_commands(changes);
    if changes.len() > 0 {
        lemma_geometry_commands(d, changes.drop_last());
        assert(cs.drop_last() =~= geometry_commands(changes.drop_last()));
        let c = changes.last();
        assert(cs.len() == changes.len());
        assert(cs.last() == Command::SetGeometry { id: c.0, before: c.1, after: c.2 });
        let prev = crate::history::apply_all(cs.drop_last(), d);
        assert(crate::history::apply_all(cs, d) == cs.last().applied(prev));
        assert(crate::history::valid_all(cs, d) == (crate::history::valid_all(cs.drop_last(), d) && cs.last().valid_at(prev)));
    } else {
        assert(cs.len() == 0);
        assert(crate::history::apply_all(cs, d) == d);
        assert(geometry_each(d.objects, changes) == d.objects);
    }
}

/// `commands` were recorded as one step, as `batch` groups them.
pub open spec fn recorded_as_batch<F>(a: &EditorState<F>, b: &EditorState<F>, commands: Seq<Command<F>>) -> bool {
    if commands.len() == 0 {
        b.history@ == a.history@
    } else {
        &&& b.history@.undo.len() == a.history@.undo.len() + 1
        &&& b.history@.undo.drop_last() == a.history@.undo
        &&& b.history@.redo.len() == 0
        &&& if commands.len() == 1 {
            b.history@.undo.last() == commands[0]
        } else {
            b.history@.undo.last() matches Command::Batch(v) && v@ == commands
        }
    }
}

impl<F: Copy> EditorState<F> {
    /// Adds an object drawn with a tool: it gets the next id, becomes the
    /// selection, the tool returns to Select, new text goes straight into
    /// edit mode, and the creation is one undo step.
    pub fn create_object(&mut self, kind: ObjectKind<F>, geometry: Geometry<F>) -> (id: ObjectId)
        requires
            old(self).document@.well_formed(),
            old(self).document@.next_id < u64::MAX,
        ensures
            id == old(self).document@.next_id + 1,
            after_create_object(&*old(self), &*final(self), kind, geometry),
    {
        let is_text = match &kind {
            ObjectKind::Text(..) => true,
            _ => false,
        };
        let ghost d0 = self.document@;
        let id = self.document.insert(kind, geometry);
        let n = self.document.objects.len();
        proof {
            crate::model::lemma_find_unique(self.document@.objects, n - 1);
        }
        let ghost h0 = self.history@;
        if let Some(found) = self.document.get(id) {
            let object = found.clone();
            self.history.record(Command::CreateObject { object });
            proof {
                if crate::history::consistent(h0, d0) {
                    let bumped = crate::history::with_counter(d0, id);
                    crate::history::lemma_undo_chain_counter(h0.undo, d0, id);
                    assert forall|i: int| 0 <= i < bumped.objects.len() implies #[trigger] bumped.objects[i].id <= bumped.next_id by {
                        assert(d0.objects[i].id <= d0.next_id);
                    }
                    assert(!contains_id(d0.objects, id)) by {
                        if contains_id(d0.objects, id) {
                            let i = choose|i: int| 0 <= i < d0.objects.len() && d0.objects[i].id == id;
                            assert(d0.objects[i].id <= d0.next_id);
                        }
                    }
                    let c = Command::CreateObject { object };
                    crate::history::lemma_record_consistent(h0, c, bumped);
                    assert(c.applied(bumped) == self.document@);
                }
            }
        }
        let mut selection = BTreeSet::new();
        selection.insert(id);
        self.selected_ids = selection;
        self.active_tool = Tool::Select;
        self.editing_text = if is_text { Some(id) } else { None };
        self.is_dirty = true;
        id
    }

    /// Live geometry update during a drag: applied, not recorded.
    pub fn update_geometry(&mut self, id: ObjectId, geometry: Geometry<F>)
        ensures
            after_update_geometry(&*old(self), &*final(self), id, geometry),
    {
        self.document.set_geometry(id, geometry);
    }

    /// One undoable step covering objects' geometry going from `before` to
    /// `after` (a finished drag, a field edit, a nudge, an alignment).
    pub fn commit_geometries(&mut self, changes: Vec<(ObjectId, Geometry<F>, Geometry<F>)>)
        ensures
            after_commit_geometries(&*old(self), &*final(self), changes),
    {
        let mut commands: Vec<Command<F>> = Vec::new();
        let ghost d0 = self.document@;
        for k in 0..changes.len()
            invariant
                self.document@ == (DocumentModel { objects: geometry_each(d0.objects, changes@.take(k as int)), ..d0 }),
                self.document.assets == old(self).document.assets,
                commands@ == geometry_commands(changes@.take(k as int)),
                self.history@ == old(self).history@,
                self.selected_ids@ == old(self).selected_ids@,
                same_ui(&*old(self), &*self),
                self.is_dirty == old(self).is_dirty,
        {
            let (id, before, after) = changes[k];
            self.document.set_geometry(id, after);
            commands.push(Command::SetGeometry { id, before, after });
            assert(changes@.take(k + 1).drop_last() =~= changes@.take(k as int));
            assert(commands@ =~= geometry_commands(changes@.take(k + 1)));
        }
        assert(changes@.take(changes@.len() as int) =~= changes@);
        proof {
            if d0.well_formed() {
                lemma_geometry_each_ids(d0.objects, changes@);
                crate::history::lemma_well_formed_same_ids(d0, geometry_each(d0.objects, changes@));
            }
        }
        let any = commands.len() > 0;
        let ghost h0 = self.history@;
        let ghost all = commands@;
        if let Some(command) = batch(commands) {
            self.history.record(command);
            assert(self.history@.undo.drop_last() =~= h0.undo);
            proof {
                lemma_geometry_commands(d0, changes@);
                if crate::history::consistent(h0, d0) && geometry_chain_valid(d0.objects, changes@) {
                    crate::history::lemma_record_batch_consistent(h0, all, command, d0);
                }
            }
        }
        self.is_dirty = self.is_dirty || any;
    }

    /// Reorders an object in the Layers panel, as one undo step; nothing
    /// happens for an unknown id.
    pub fn reorder_object(&mut self, id: ObjectId, new_index: usize)
        ensures
            after_reorder_object(&*old(self), &*final(self), id, new_index),
    {
        let ghost d0 = self.document@;
        let ghost h0 = self.history@;
        let count = self.document.objects.len();
        if let Some(before_index) = self.document.move_to_index(id, new_index) {
            let c = Command::Reorder { id, before_index, after_index: new_index };
            self.history.record(c);
            self.is_dirty = true;
            proof {
                crate::object_seq::lemma_find_some(d0.objects, id);
                assert(find_index(d0.objects, id)->0 < count);
                if crate::history::consistent(h0, d0) {
                    crate::history::lemma_record_consistent(h0, c, d0);
                }
            }
        }
    }
}


impl<F: Copy> EditorState<F> {
    /// Deletes the objects `ids` together with everything inside them, as
    /// one undo step that remembers each object's z-position; they leave the
    /// selection. Nothing is recorded when none of them exists.
    pub fn delete_objects(&mut self, ids: Vec<ObjectId>)
        requires
            old(self).document@.well_formed(),
        ensures
            after_delete_objects(&*old(self), &*final(self), ids),
    {
        let all = expand_with_descendants(&self.document, &ids);
        let ghost d0 = self.document@;
        let ghost h0 = self.history@;
        let ghost gone = with_descendants(d0.objects, ids@.to_set());
        let mut removed: Vec<(usize, DesignObject<F>)> = Vec::new();
        let n = self.document.objects.len();
        for i in 0..n
            invariant
                n == d0.objects.len(),
                self.document@ == d0,
                all@.to_set() == gone,
                removed@ == entries_in(d0.objects, gone, i as int),
        {
            let object = &self.document.objects[i];
            if crate::model::contains_u64(&all, object.id) {
                removed.push((i, object.clone()));
            }
        }
        proof {
            lemma_entries_in_match(d0.objects, gone, n as int);
        }
        for k in 0..removed.len()
            invariant
                self.document@ == (DocumentModel {
                    objects: crate::history::remove_each(d0.objects, removed@.take(k as int)),
                    ..d0
                }),
                self.document.assets == old(self).document.assets,
                self.history@ == h0,
                self.selected_ids@ == old(self).selected_ids@,
                self.is_dirty == old(self).is_dirty,
                same_ui(&*old(self), &*self),
        {
            let id = removed[k].1.id;
            self.document.remove(id);
            assert(removed@.take(k + 1).drop_last() =~= removed@.take(k as int));
        }
        assert(removed@.take(removed@.len() as int) =~= removed@);
        let ghost sel0 = self.selected_ids@;
        for j in 0..all.len()
            invariant
                forall|x: ObjectId| #[trigger] self.selected_ids@.contains(x) <==> (sel0.contains(x) && !all@.take(j as int).contains(x)),
                self.document@ == (DocumentModel { objects: crate::history::remove_each(d0.objects, removed@), ..d0 }),
                self.document.assets == old(self).document.assets,
                self.history@ == h0,
                self.is_dirty == old(self).is_dirty,
                same_ui(&*old(self), &*self),
        {
            let ghost before = self.selected_ids@;
            self.selected_ids.remove(&all[j]);
            proof {
                let t = all@.take(j as int);
                assert(all@.take(j + 1) =~= t.push(all@[j as int]));
                assert forall|x: ObjectId| #[trigger] self.selected_ids@.contains(x) <==> (sel0.contains(x) && !all@.take(j + 1).contains(x)) by {
                    if t.contains(x) {
                        let a = choose|a: int| 0 <= a < t.len() && t[a] == x;
                        assert(all@.take(j + 1)[a] == x);
                    }
                    if all@.take(j + 1).contains(x) && x != all@[j as int] {
                        let u = all@.take(j + 1);
                        let a = choose|a: int| 0 <= a < u.len() && #[trigger] u[a] == x;
                        assert(t[a] == x);
                    }
                    if x == all@[j as int] {
                        assert(all@.take(j + 1)[j as int] == x);
                    }
                }
            }
        }
        assert(all@.take(all@.len() as int) =~= all@);
        assert(self.selected_ids@ =~= sel0.difference(gone));
        if removed.len() > 0 {
            let ghost r = removed@;
            let c = Command::DeleteObjects { removed };
            self.history.record(c);
            self.is_dirty = true;
            proof {
                assert(self.history@.undo.drop_last() =~= h0.undo);
                if crate::history::consistent(h0, d0) {
                    crate::history::lemma_record_consistent(h0, c, d0);
                }
                if d0.well_formed() {
                    crate::history::lemma_undo_inverts(c, d0);
                }
            }
        }
    }
}

impl<F: Copy> EditorState<F> {
    /// Copies the selection, with everything inside selected groups, to the
    /// clipboard, ordered by id. The document and history are untouched.
    pub fn copy(&mut self)
        requires
            old(self).document@.well_formed(),
        ensures
            after_copy(&*old(self), &*final(self)),
    {
        let selected = ids_of(&self.selected_ids);
        let all = expand_with_descendants(&self.document, &selected);
        let mut clipboard: Vec<DesignObject<F>> = Vec::new();
        for k in 0..all.len()
            invariant
                clipboard@ == objects_for(self.document@.objects, all@.take(k as int)),
        {
            if let Some(object) = self.document.get(all[k]) {
                clipboard.push(object.clone());
            }
            assert(all@.take(k + 1).drop_last() =~= all@.take(k as int));
        }
        assert(all@.take(all@.len() as int) =~= all@);
        self.clipboard = clipboard;
    }
}

/// The ids that `objects_for` picks are distinct and name objects of
/// `objects`, when the ids asked for are distinct.
proof fn lemma_objects_for_ids<F>(objects: Seq<DesignObject<F>>, ids: Seq<ObjectId>)
    requires
        ids.no_duplicates(),
    ensures
        objects_for(objects, ids).map_values(|o: DesignObject<F>| o.id).no_duplicates(),
        forall|j: int|
            0 <= j < objects_for(objects, ids).len() ==> ids.contains(#[trigger] objects_for(objects, ids)[j].id)
                && contains_id(objects, objects_for(objects, ids)[j].id),
    decreases ids.len(),
{
    if ids.len() > 0 {
        let rest = ids.drop_last();
        assert(rest.no_duplicates());
        lemma_objects_for_ids(objects, rest);
        let p = objects_for(objects, rest);
        let q = objects_for(objects, ids);
        assert forall|j: int| 0 <= j < p.len() implies #[trigger] ids.contains(p[j].id) by {
            let a = choose|a: int| 0 <= a < rest.len() && rest[a] == p[j].id;
            assert(ids[a] == p[j].id);
        }
        match find_index(objects, ids.last()) {
            Some(i) => {
                crate::object_seq::lemma_find_some(objects, ids.last());
                assert(q =~= p.push(objects[i]));
                assert forall|j: int| 0 <= j < p.len() implies p[j].id != ids.last() by {
                    let a = choose|a: int| 0 <= a < rest.len() && rest[a] == p[j].id;
                    assert(ids[a] == rest[a]);
                }
                let f = |o: DesignObject<F>| o.id;
                assert(q.map_values(f) =~= p.map_values(f).push(ids.last()));
                assert(ids[ids.len() - 1] == ids.last());
                assert(contains_id(objects, objects[i].id));
            },
            None => {
                assert(q =~= p);
            },
        }
    }
}

/// At most as many objects are picked as `objects` holds, when the ids asked
/// for are distinct.
proof fn lemma_objects_for_len<F>(objects: Seq<DesignObject<F>>, ids: Seq<ObjectId>)
    requires
        ids.no_duplicates(),
    ensures
        objects_for(objects, ids).len() <= objects.len(),
{
    lemma_objects_for_ids(objects, ids);
    let f = |o: DesignObject<F>| o.id;
    let picked = objects_for(objects, ids).map_values(f);
    let all = objects.map_values(f);
    picked.unique_seq_to_set();
    all.lemma_cardinality_of_set();
    assert forall|x: ObjectId| picked.to_set().contains(x) implies all.to_set().contains(x) by {
        let j = choose|j: int| 0 <= j < picked.len() && picked[j] == x;
        assert(objects_for(objects, ids)[j].id == x);
        let i = choose|i: int| 0 <= i < objects.len() && objects[i].id == x;
        assert(all[i] == x);
    }
    vstd::set_lib::lemma_len_subset(picked.to_set(), all.to_set());
}

/// The creation of each of `objects`, in order.
pub open spec fn creations<F>(objects: Seq<DesignObject<F>>) -> Seq<Command<F>> {
    objects.map_values(|o: DesignObject<F>| Command::CreateObject { object: o })
}

/// Creating `created` (ids counting up from `base + 1`) one after another
/// on `d`, whose ids are at most `base` and whose counter covers them all,
/// is valid at each step and puts them on top in order.
proof fn lemma_creations<F>(d: DocumentModel<F>, created: Seq<DesignObject<F>>, base: int, k: int)
    requires
        0 <= k <= created.len(),
        forall|i: int| 0 <= i < d.objects.len() ==> #[trigger] d.objects[i].id <= base,
        forall|j: int| 0 <= j < created.len() ==> #[trigger] created[j].id == base + 1 + j,
        base + created.len() <= d.next_id,
    ensures
        crate::history::apply_all(
            creations(created).take(k),
            d,
        ) == (DocumentModel { objects: d.objects + created.take(k), ..d }),
        crate::history::valid_all(creations(created).take(k), d),
    decreases k,
{
    let all = creations(created);
    if k == 0 {
        assert(all.take(0) =~= Seq::<Command<F>>::empty());
        assert(d.objects + created.take(0) =~= d.objects);
    } else {
        lemma_creations(d, created, base, k - 1);
        assert(all.take(k).drop_last() =~= all.take(k - 1));
        assert(all.take(k).last() == Command::CreateObject { object: created[k - 1] });
        let objs = d.objects + created.take(k - 1);
        assert(!contains_id(objs, created[k - 1].id)) by {
            if contains_id(objs, created[k - 1].id) {
                let i = choose|i: int| 0 <= i < objs.len() && objs[i].id == created[k - 1].id;
                if i < d.objects.len() {
                    assert(objs[i] == d.objects[i]);
                } else {
                    assert(objs[i] == created[i - d.objects.len()]);
                }
            }
        }
        assert(objs.push(created[k - 1]) =~= d.objects + created.take(k));
        let prev = crate::history::apply_all(all.take(k - 1), d);
        assert(prev == (DocumentModel { objects: objs, ..d }));
        let c = Command::<F>::CreateObject { object: created[k - 1] };
        assert(c.valid_at(prev));
        assert(c.applied(prev) == (DocumentModel { objects: d.objects + created.take(k), ..d }));
        assert(crate::history::apply_all(all.take(k), d) == c.applied(prev));
        assert(crate::history::valid_all(all.take(k), d));
    }
}

/// What adding the copies of `sources` (see `copies_of`) on top of `a`'s
/// document leaves in `b`: the copies are selected and recorded as one undo
/// step of creations (none when there are no sources).
pub open spec fn pasted<F: Copy>(a: &EditorState<F>, b: &EditorState<F>, sources: Seq<DesignObject<F>>, shifted: Seq<(ObjectId, Geometry<F>)>) -> bool {
    let base = a.document@.next_id;
    let created = copies_of(sources, base, shifted);
    &&& b.document@ == (DocumentModel {
        objects: a.document@.objects + created,
        next_id: (base + sources.len()) as ObjectId,
        ..a.document@
    })
    &&& b.document.assets == a.document.assets
    &&& b.selected_ids@ == Set::new(|x: ObjectId| base < x <= base + sources.len())
    &&& sources.len() == 0 ==> b.history@ == a.history@
    &&& sources.len() == 1 ==> b.history@.undo == a.history@.undo.push(Command::CreateObject { object: created[0] })
    &&& sources.len() > 1 ==> {
        &&& b.history@.undo.len() == a.history@.undo.len() + 1
        &&& b.history@.undo.drop_last() == a.history@.undo
        &&& (b.history@.undo.last() matches Command::Batch(steps) && steps@ == creations(created))
    }
    &&& sources.len() > 0 ==> b.history@.redo.len() == 0
    &&& same_ui(a, b)
    &&& dirty_follows_history(a, b)
    &&& a.document@.well_formed() ==> b.document@.well_formed()
    &&& a.history_consistent() ==> b.history_consistent()
}

/// What `EditorState::duplicate_objects` leaves behind: the objects `ids`
/// with everything inside them, ordered by id, are copied.
pub open spec fn after_duplicate_objects<F: Copy>(a: &EditorState<F>, b: &EditorState<F>, ids: Vec<ObjectId>, shifted: Vec<(ObjectId, Geometry<F>)>) -> bool {
    exists|all: Seq<ObjectId>|
        #![trigger objects_for(a.document@.objects, all)]
        sorted_ids(all) && all.to_set() == with_descendants(a.document@.objects, ids@.to_set())
            && pasted(a, b, objects_for(a.document@.objects, all), shifted@)
}

/// What `EditorState::paste` leaves behind: the clipboard is copied, unless
/// it is empty.
pub open spec fn after_paste<F: Copy>(a: &EditorState<F>, b: &EditorState<F>, shifted: Vec<(ObjectId, Geometry<F>)>) -> bool {
    &&& a.clipboard@.len() == 0 ==> {
        &&& same_document(a, b)
        &&& b.history@ == a.history@
        &&& b.selected_ids@ == a.selected_ids@
        &&& same_ui(a, b)
        &&& b.is_dirty == a.is_dirty
    }
    &&& a.clipboard@.len() > 0 ==> pasted(a, b, a.clipboard@, shifted@)
}

impl<F: Copy> EditorState<F> {
    /// Adds copies of `sources` on top (each at the geometry `shifted` gives
    /// its source, a member of a copied group inside the group's copy),
    /// selects them and records their creation as one undo step.
    fn insert_copies(&mut self, sources: Vec<DesignObject<F>>, shifted: Vec<(ObjectId, Geometry<F>)>)
        requires
            old(self).document@.next_id + sources@.len() <= u64::MAX,
        ensures
            pasted(&*old(self), &*final(self), sources@, shifted@),
    {
        let ghost h0 = self.history@;
        let base = self.document.last_id();
        let created = self.document.insert_many_remapped(&sources, &shifted);
        let mut selection: BTreeSet<ObjectId> = BTreeSet::new();
        let mut steps: Vec<Command<F>> = Vec::new();
        for k in 0..created.len()
            invariant
                created@ == copies_of(sources@, base, shifted@),
                base + created@.len() <= u64::MAX,
                selection@ == Set::new(|x: ObjectId| base < x <= base + k),
                steps@ == creations(created@.take(k as int)),
        {
            assert(created@[k as int].id == base + 1 + k);
            selection.insert(created[k].id);
            steps.push(Command::CreateObject { object: created[k].clone() });
            assert(selection@ =~= Set::new(|x: ObjectId| base < x <= base + k + 1));
            assert(steps@ =~= creations(created@.take(k + 1)));
        }
        assert(created@.take(created@.len() as int) =~= created@);
        self.selected_ids = selection;
        let ghost d0 = old(self).document@;
        let ghost commands = steps@;
        if let Some(command) = batch(steps) {
            self.history.record(command);
            self.is_dirty = true;
            assert(self.history@.undo.drop_last() =~= h0.undo);
            proof {
                if crate::history::consistent(h0, d0) {
                    let n = (base + created@.len()) as ObjectId;
                    let bumped = crate::history::with_counter(d0, n);
                    crate::history::lemma_undo_chain_counter(h0.undo, d0, n);
                    assert forall|i: int| 0 <= i < bumped.objects.len() implies #[trigger] bumped.objects[i].id <= bumped.next_id by {
                        assert(d0.objects[i].id <= d0.next_id);
                    }
                    assert forall|j: int| 0 <= j < created@.len() implies #[trigger] created@[j].id == base + 1 + j by {
                        assert(created@[j] == copy_of(sources@, base, shifted@, j));
                    }
                    lemma_creations(bumped, created@, base as int, created@.len() as int);
                    let all = creations(created@);
                    assert(all.take(all.len() as int) =~= all);
                    assert(commands == all);
                    crate::history::lemma_record_batch_consistent(h0, commands, command, bumped);
                    assert(self.history@.redo =~= Seq::<Command<F>>::empty());
                    assert(self.history@ == (crate::history::HistoryModel { undo: h0.undo.push(command), redo: Seq::empty() }));
                }
            }
        }
    }

    /// Duplicates the objects `ids` with everything inside them (ordered by
    /// id): the copies go on top at the geometries `shifted` gives their
    /// sources, become the selection and are recorded as one undo step.
    pub fn duplicate_objects(&mut self, ids: Vec<ObjectId>, shifted: Vec<(ObjectId, Geometry<F>)>)
        requires
            old(self).document@.well_formed(),
            old(self).document@.next_id + old(self).document@.objects.len() <= u64::MAX,
        ensures
            after_duplicate_objects(&*old(self), &*final(self), ids, shifted),
    {
        let all = expand_with_descendants(&self.document, &ids);
        let mut sources: Vec<DesignObject<F>> = Vec::new();
        for k in 0..all.len()
            invariant
                sources@ == objects_for(self.document@.objects, all@.take(k as int)),
        {
            if let Some(object) = self.document.get(all[k]) {
                sources.push(object.clone());
            }
            assert(all@.take(k + 1).drop_last() =~= all@.take(k as int));
        }
        assert(all@.take(all@.len() as int) =~= all@);
        proof {
            assert(all@.no_duplicates()) by {
                assert forall|a: int, b: int| 0 <= a < all@.len() && 0 <= b < all@.len() && a != b implies all@[a] != all@[b] by {
                    if a < b {
                        assert(all@[a] < all@[b]);
                    } else {
                        assert(all@[b] < all@[a]);
                    }
                }
            }
            lemma_objects_for_len(self.document@.objects, all@);
        }
        let ghost a = *self;
        self.insert_copies(sources, shifted);
        assert(sorted_ids(all@) && all@.to_set() == with_descendants(a.document@.objects, ids@.to_set())
            && pasted(&a, &*self, objects_for(a.document@.objects, all@), shifted@));
    }

    /// Pastes the clipboard: its copies go on top at the geometries
    /// `shifted` gives their sources, become the selection and are recorded
    /// as one undo step. Nothing happens when the clipboard is empty.
    pub fn paste(&mut self, shifted: Vec<(ObjectId, Geometry<F>)>)
        requires
            old(self).document@.next_id + old(self).clipboard@.len() <= u64::MAX,
        ensures
            after_paste(&*old(self), &*final(self), shifted),
    {
        if self.clipboard.len() > 0 {
            let sources = self.clipboard.clone();
            self.insert_copies(sources, shifted);
        }
    }
}

/// The text properties of the object `id`, if it exists and is a text
/// object.
pub open spec fn text_of<F>(objects: Seq<DesignObject<F>>, id: ObjectId) -> Option<TextProperties<F>> {
    match find_index(objects, id) {
        Some(i) => match objects[i].kind {
            ObjectKind::Text(props) => Some(props),
            _ => None,
        },
        None => None,
    }
}

/// `objects` with the object `id` made a text object with `properties`
/// and, for auto-sized text, given the geometry that fits it.
pub open spec fn text_written<F>(
    objects: Seq<DesignObject<F>>,
    id: ObjectId,
    properties: TextProperties<F>,
    resized: Option<Geometry<F>>,
) -> Seq<DesignObject<F>> {
    let k = crate::model::with_kind(objects, id, ObjectKind::Text(properties));
    match resized {
        Some(g) => crate::model::with_geometry(k, id, g),
        None => k,
    }
}

/// The commands of one text step: the property change, if the properties
/// `changed`, then the geometry change, if there is one.
pub open spec fn text_step<F>(
    id: ObjectId,
    before: TextProperties<F>,
    after: TextProperties<F>,
    changed: bool,
    geometry: Option<(Geometry<F>, Geometry<F>)>,
) -> Seq<Command<F>> {
    (if changed {
        seq![Command::SetTextProperties { id, before, after }]
    } else {
        Seq::empty()
    }) + match geometry {
        Some(g) => seq![Command::SetGeometry { id, before: g.0, after: g.1 }],
        None => Seq::empty(),
    }
}

impl<F: Copy> EditorState<F> {
    /// Records a text step (see `text_step`) as one undo step, if it has any
    /// command.
    fn record_text_step(
        &mut self,
        id: ObjectId,
        before: TextProperties<F>,
        after: TextProperties<F>,
        changed: bool,
        geometry: Option<(Geometry<F>, Geometry<F>)>,
    )
        ensures
            recorded_as_batch(&*old(self), &*final(self), text_step(id, before, after, changed, geometry)),
            same_document(&*old(self), &*final(self)),
            final(self).selected_ids@ == old(self).selected_ids@,
            same_ui(&*old(self), &*final(self)),
            dirty_follows_history(&*old(self), &*final(self)),
    {
        let ghost step = text_step(id, before, after, changed, geometry);
        let mut commands: Vec<Command<F>> = Vec::new();
        if changed {
            commands.push(Command::SetTextProperties { id, before, after });
        }
        if let Some((b, a)) = geometry {
            commands.push(Command::SetGeometry { id, before: b, after: a });
        }
        assert(commands@ =~= step);
        let any = commands.len() > 0;
        let ghost h0 = self.history@;
        if let Some(command) = batch(commands) {
            self.history.record(command);
            assert(self.history@.undo.drop_last() =~= h0.undo);
        }
        self.is_dirty = self.is_dirty || any;
    }

    /// Live text update while editing (typing, a style toggle): applied,
    /// not recorded. `resized` is the geometry that fits auto-sized text,
    /// worked out by the caller from the text metrics; `None` for fixed-size
    /// text. Nothing happens for an unknown id.
    pub fn update_text_properties(&mut self, id: ObjectId, properties: TextProperties<F>, resized: Option<Geometry<F>>)
        ensures
            after_update_text_properties(&*old(self), &*final(self), id, properties, resized),
    {
        self.document.set_kind(id, ObjectKind::Text(properties));
        if let Some(g) = resized {
            self.document.set_geometry(id, g);
        }
    }

    /// Ends an inline edit session on the text object `id`: leaves edit
    /// mode and records, as one step, what changed since the session began
    /// (`before` and `before_geometry`; the document already holds the
    /// result). `changed` says whether the object's text properties now
    /// differ from `before`, `geometry_changed` whether its geometry now
    /// differs from `before_geometry`. A session that began and ended with
    /// blank content deletes the object instead of leaving an invisible one
    /// behind.
    pub fn commit_text_edit(&mut self, id: ObjectId, before: TextProperties<F>, before_geometry: Geometry<F>, changed: bool, geometry_changed: bool)
        ensures
            after_commit_text_edit(&*old(self), &*final(self), id, before, before_geometry, changed, geometry_changed),
    {
        self.editing_text = None;
        let mut after: Option<TextProperties<F>> = None;
        let mut after_geometry = before_geometry;
        if let Some(object) = self.document.get(id) {
            if let ObjectKind::Text(props) = &object.kind {
                after = Some(props.clone());
                after_geometry = object.geometry;
            }
        }
        if let Some(after) = after {
            if crate::text::is_blank(&before.content) && crate::text::is_blank(&after.content) {
                let ghost h0 = self.history@;
                if let Some(entry) = self.document.remove_with_index(id) {
                    self.selected_ids.remove(&id);
                    let mut removed: Vec<(usize, DesignObject<F>)> = Vec::new();
                    removed.push(entry);
                    self.history.record(Command::DeleteObjects { removed });
                    self.is_dirty = true;
                    assert(self.history@.undo.drop_last() =~= h0.undo);
                }
            } else {
                let geometry = if geometry_changed { Some((before_geometry, after_geometry)) } else { None };
                self.record_text_step(id, before, after, changed, geometry);
            }
        }
    }

    /// One text change from a Properties panel field (outside an edit
    /// session), applied and recorded as one step; `changed` says whether
    /// `before` and `after` differ. `resized` is the fitting geometry for
    /// auto-sized text when it differs from the current one, else `None`.
    /// Nothing happens for an unknown id.
    pub fn commit_text_properties(&mut self, id: ObjectId, before: TextProperties<F>, after: TextProperties<F>, changed: bool, resized: Option<Geometry<F>>)
        ensures
            after_commit_text_properties(&*old(self), &*final(self), id, before, after, changed, resized),
    {
        let mut before_geometry: Option<Geometry<F>> = None;
        if let Some(object) = self.document.get(id) {
            before_geometry = Some(object.geometry);
        }
        if let Some(old_geometry) = before_geometry {
            self.update_text_properties(id, after.clone(), resized);
            let geometry = match resized {
                Some(g) => Some((old_geometry, g)),
                None => None,
            };
            self.record_text_step(id, before, after, changed, geometry);
        }
    }

    /// Finishes a resize-handle drag on a text object: the drag already set
    /// the geometry; this sets the text's properties to `after` and records
    /// the property change (when `changed`, which says whether `before` and
    /// `after` differ) and, when `geometry_changed`, the geometry change
    /// from `before_geometry`, as one step. Nothing happens for an unknown
    /// id.
    pub fn commit_text_resize(
        &mut self,
        id: ObjectId,
        before_geometry: Geometry<F>,
        before: TextProperties<F>,
        after: TextProperties<F>,
        changed: bool,
        geometry_changed: bool,
    )
        ensures
            after_commit_text_resize(&*old(self), &*final(self), id, before_geometry, before, after, changed, geometry_changed),
    {
        let mut after_geometry: Option<Geometry<F>> = None;
        if let Some(object) = self.document.get(id) {
            after_geometry = Some(object.geometry);
        }
        if let Some(current) = after_geometry {
            self.document.set_kind(id, ObjectKind::Text(after.clone()));
            let geometry = if geometry_changed { Some((before_geometry, current)) } else { None };
            self.record_text_step(id, before, after, changed, geometry);
        }
    }
}

impl<F: Copy> EditorState<F> {
    /// Registers a freshly decoded image file as an asset and adds an image
    /// object named after the file at `geometry` (placed and sized by the
    /// caller), as one undo step via the same command every other creation
    /// uses. The new object becomes the selection and the tool returns to
    /// Select. Returns the object's and the asset's ids.
    pub fn import_image(&mut self, filename: String, mime_type: String, natural_width: F, natural_height: F, reference: String, geometry: Geometry<F>) -> (ids: (ObjectId, crate::assets::AssetId))
        requires
            old(self).document@.well_formed(),
            old(self).document@.next_id < u64::MAX,
            old(self).document.assets.next_id() < u64::MAX,
        ensures
            ids.0 == old(self).document@.next_id + 1,
            ids.1 == old(self).document.assets.next_id() + 1,
            after_import_image(&*old(self), &*final(self), filename, mime_type, natural_width, natural_height, reference, geometry),
    {
        let ghost d0 = self.document@;
        let ghost h0 = self.history@;
        let asset_id = self.document.assets.insert(filename.clone(), mime_type, natural_width, natural_height, reference);
        let id = self.document.insert(ObjectKind::Image(ImageProperties { asset_id, fit: ImageFit::Fill }), geometry);
        let ghost d1 = self.document@;
        let n = self.document.objects.len();
        proof {
            crate::model::lemma_find_unique(d1.objects, n - 1);
        }
        self.document.set_name(id, filename);
        let object = self.document.objects[n - 1].clone();
        assert(self.document@.objects =~= d0.objects.push(object));
        let c = Command::CreateObject { object };
        self.history.record(c);
        proof {
            assert forall|i: int| 0 <= i < self.document@.objects.len() implies #[trigger] self.document@.objects[i].id <= self.document@.next_id by {
                if i < n - 1 {
                    assert(self.document@.objects[i] == d0.objects[i]);
                }
            }
            assert(crate::model::ids_unique(self.document@.objects)) by {
                assert forall|i: int, j: int|
                    0 <= i < self.document@.objects.len() && 0 <= j < self.document@.objects.len() && i != j implies
                    self.document@.objects[i].id != self.document@.objects[j].id by {
                    assert(self.document@.objects[i].id == d1.objects[i].id);
                    assert(self.document@.objects[j].id == d1.objects[j].id);
                }
            }
            if crate::history::consistent(h0, d0) {
                let bumped = crate::history::with_counter(d0, id);
                crate::history::lemma_undo_chain_counter(h0.undo, d0, id);
                assert forall|i: int| 0 <= i < bumped.objects.len() implies #[trigger] bumped.objects[i].id <= bumped.next_id by {
                    assert(d0.objects[i].id <= d0.next_id);
                }
                assert(!contains_id(d0.objects, id)) by {
                    if contains_id(d0.objects, id) {
                        let i = choose|i: int| 0 <= i < d0.objects.len() && d0.objects[i].id == id;
                        assert(d0.objects[i].id <= d0.next_id);
                    }
                }
                crate::history::lemma_record_consistent(h0, c, bumped);
                assert(c.applied(bumped) == self.document@);
            }
        }
        let mut selection = BTreeSet::new();
        selection.insert(id);
        self.selected_ids = selection;
        self.active_tool = Tool::Select;
        self.is_dirty = true;
        (id, asset_id)
    }

    /// Undoes the latest step; what it touched and still exists becomes the
    /// selection. Nothing happens when there is nothing to undo.
    pub fn undo(&mut self)
        ensures
            after_undo(&*old(self), &*final(self)),
    {
        let ghost d0 = self.document@;
        let ghost h0 = self.history@;
        if let Some(ids) = self.history.undo(&mut self.document) {
            self.select_present(&ids);
            self.is_dirty = true;
            proof {
                if crate::history::consistent(h0, d0) {
                    crate::history::lemma_undo_consistent(h0, d0);
                }
            }
        }
    }

    /// Redoes the latest undone step; what it touched and still exists
    /// becomes the selection. Nothing happens when there is nothing to redo.
    pub fn redo(&mut self)
        ensures
            after_redo(&*old(self), &*final(self)),
    {
        let ghost d0 = self.document@;
        let ghost h0 = self.history@;
        if let Some(ids) = self.history.redo(&mut self.document) {
            self.select_present(&ids);
            self.is_dirty = true;
            proof {
                if crate::history::consistent(h0, d0) {
                    crate::history::lemma_redo_consistent(h0, d0);
                }
            }
        }
    }

    /// Selects exactly those of `ids` that the document holds.
    fn select_present(&mut self, ids: &Vec<ObjectId>)
        ensures
            final(self).selected_ids@ == ids@.to_set().filter(|x: ObjectId| contains_id(final(self).document@.objects, x)),
            final(self).document == old(self).document,
            final(self).history@ == old(self).history@,
            final(self).is_dirty == old(self).is_dirty,
            same_ui(&*old(self), &*final(self)),
    {
        let mut selection: BTreeSet<ObjectId> = BTreeSet::new();
        for k in 0..ids.len()
            invariant
                selection@ == ids@.take(k as int).to_set().filter(|x: ObjectId| contains_id(self.document@.objects, x)),
        {
            let ghost before = selection@;
            if self.document.get(ids[k]).is_some() {
                selection.insert(ids[k]);
            }
            proof {
                let t = ids@.take(k as int);
                let u = ids@.take(k + 1);
                assert(u =~= t.push(ids@[k as int]));
                assert(selection@ =~= u.to_set().filter(|x: ObjectId| contains_id(self.document@.objects, x))) by {
                    assert forall|x: ObjectId| selection@.contains(x) implies u.to_set().contains(x) by {
                        if before.contains(x) {
                            let a = choose|a: int| 0 <= a < t.len() && t[a] == x;
                            assert(u[a] == x);
                        } else {
                            assert(u[k as int] == x);
                            crate::object_seq::lemma_find_some(self.document@.objects, x);
                        }
                    }
                    assert forall|x: ObjectId| #[trigger] u.to_set().contains(x) && contains_id(self.document@.objects, x) implies selection@.contains(x) by {
                        let a = choose|a: int| 0 <= a < u.len() && u[a] == x;
                        if a < k {
                            assert(t[a] == x);
                        } else if find_index(self.document@.objects, x) is None {
                            crate::object_seq::lemma_find_none(self.document@.objects, x);
                        }
                    }
                }
            }
        }
        assert(ids@.take(ids@.len() as int) =~= ids@);
        self.selected_ids = selection;
    }
}

/// Setting geometries keeps every object's id in its place.
proof fn lemma_geometry_each_ids<F>(objects: Seq<DesignObject<F>>, changes: Seq<(ObjectId, Geometry<F>, Geometry<F>)>)
    ensures
        geometry_each(objects, changes).len() == objects.len(),
        forall|j: int| 0 <= j < objects.len() ==> (#[trigger] geometry_each(objects, changes)[j]).id == objects[j].id,
    decreases changes.len(),
{
    if changes.len() > 0 {
        lemma_geometry_each_ids(objects, changes.drop_last());
        let prev = geometry_each(objects, changes.drop_last());
        let c = changes.last();
        crate::object_seq::lemma_with_object_ids(prev, c.0, |o: DesignObject<F>| DesignObject { geometry: c.2, ..o });
        assert forall|j: int| 0 <= j < objects.len() implies (#[trigger] geometry_each(objects, changes)[j]).id == objects[j].id by {
            assert(prev[j].id == objects[j].id);
        }
    }
}

/// Reparenting keeps every object's id in its place.
proof fn lemma_reparent_each_ids<F>(objects: Seq<DesignObject<F>>, changes: Seq<(ObjectId, Option<ObjectId>, Option<ObjectId>)>, undo: bool)
    ensures
        crate::history::reparent_each(objects, changes, undo).len() == objects.len(),
        forall|j: int| 0 <= j < objects.len() ==> (#[trigger] crate::history::reparent_each(objects, changes, undo)[j]).id == objects[j].id,
    decreases changes.len(),
{
    if changes.len() > 0 {
        lemma_reparent_each_ids(objects, changes.drop_last(), undo);
        let prev = crate::history::reparent_each(objects, changes.drop_last(), undo);
        let c = changes.last();
        let p = if undo { c.1 } else { c.2 };
        crate::object_seq::lemma_with_object_ids(prev, c.0, |o: DesignObject<F>| DesignObject { parent_id: p, ..o });
        assert forall|j: int| 0 <= j < objects.len() implies (#[trigger] crate::history::reparent_each(objects, changes, undo)[j]).id == objects[j].id by {
            assert(prev[j].id == objects[j].id);
        }
    }
}

/// The undo step for resizing the canvas from `before` to `after`, with the
/// geometry changes that scale the content along.
pub open spec fn canvas_commands<F>(before: (F, F), after: (F, F), scaled: Seq<(ObjectId, Geometry<F>, Geometry<F>)>) -> Seq<Command<F>> {
    seq![Command::SetCanvasSize { before, after }] + geometry_commands(scaled)
}

/// The undo step for resetting the canvas: the size change, if the size
/// differs, then the background change, if the background differs.
pub open spec fn reset_commands<F>(
    size: (F, F),
    default_size: (F, F),
    size_differs: bool,
    background: String,
    default_background: String,
) -> Seq<Command<F>> {
    (if size_differs {
        seq![Command::SetCanvasSize { before: size, after: default_size }]
    } else {
        Seq::empty()
    }) + (if background@ != default_background@ {
        seq![Command::SetBackground { before: background, after: default_background }]
    } else {
        Seq::empty()
    })
}

impl<F: Copy> EditorState<F> {
    /// Starts over on `blank`: nothing selected, the Select tool, empty
    /// history, no file, titled "Untitled", fit mode on at `zoom`, clean.
    /// The clipboard survives.
    pub fn new_document(&mut self, blank: DesignDocument<F>, zoom: F)
        ensures
            after_new_document(&*old(self), &*final(self), blank, zoom),
    {
        self.document = blank;
        self.selected_ids = BTreeSet::new();
        self.active_tool = Tool::Select;
        self.history = History::new();
        self.editing_text = None;
        self.expanded_groups = BTreeSet::new();
        self.file_path = None;
        self.document_title = String::from_str("Untitled");
        proof {
            reveal_strlit("Untitled");
        }
        self.zoom = zoom;
        self.fit_mode = true;
        self.is_dirty = false;
    }

    /// Replaces the document with one just read from `path`, titled
    /// `filename`; the rest resets as for a new document.
    pub fn load_document(&mut self, document: DesignDocument<F>, path: String, filename: String, zoom: F)
        ensures
            after_load_document(&*old(self), &*final(self), document, path, filename, zoom),
    {
        self.document = document;
        self.selected_ids = BTreeSet::new();
        self.active_tool = Tool::Select;
        self.history = History::new();
        self.editing_text = None;
        self.expanded_groups = BTreeSet::new();
        self.file_path = Some(path);
        self.document_title = filename;
        self.zoom = zoom;
        self.fit_mode = true;
        self.is_dirty = false;
    }

    /// Records where a save just went; the document is clean again.
    pub fn mark_saved(&mut self, path: String, filename: String)
        ensures
            after_mark_saved(&*old(self), &*final(self), path, filename),
    {
        self.file_path = Some(path);
        self.document_title = filename;
        self.is_dirty = false;
    }

    /// A manual zoom (already clamped to the allowed range): fit mode ends.
    pub fn set_zoom(&mut self, zoom: F)
        ensures
            after_set_zoom(&*old(self), &*final(self), zoom),
    {
        self.zoom = zoom;
        self.fit_mode = false;
    }

    /// Turns fit mode on or off; the zoom itself follows later through
    /// `sync_fit_zoom`.
    pub fn set_fit_mode(&mut self, enabled: bool)
        ensures
            after_set_fit_mode(&*old(self), &*final(self), enabled),
    {
        self.fit_mode = enabled;
    }

    /// Keeps the zoom (already clamped) in step with the fitted zoom,
    /// leaving fit mode as it is.
    pub fn sync_fit_zoom(&mut self, zoom: F)
        ensures
            after_sync_fit_zoom(&*old(self), &*final(self), zoom),
    {
        self.zoom = zoom;
    }

    /// Resizes the canvas to `after` (already held to the minimum size) as
    /// one undo step, together with `scaled`, the geometry changes that
    /// scale every object along (empty when content is not scaled).
    /// `changed` says whether `after` differs from the current size; when
    /// it does not, nothing happens.
    pub fn set_canvas_size(&mut self, after: (F, F), changed: bool, scaled: Vec<(ObjectId, Geometry<F>, Geometry<F>)>)
        ensures
            after_set_canvas_size(&*old(self), &*final(self), after, changed, scaled),
    {
        if changed {
            let before = (self.document.canvas_width, self.document.canvas_height);
            let mut commands: Vec<Command<F>> = Vec::new();
            commands.push(Command::SetCanvasSize { before, after });
            let ghost d0 = self.document@;
            for k in 0..scaled.len()
                invariant
                    self.document@ == (DocumentModel { objects: geometry_each(d0.objects, scaled@.take(k as int)), ..d0 }),
                    self.document.assets == old(self).document.assets,
                    commands@ == canvas_commands(before, after, scaled@.take(k as int)),
                    self.history@ == old(self).history@,
                    self.selected_ids@ == old(self).selected_ids@,
                    same_ui(&*old(self), &*self),
                    self.is_dirty == old(self).is_dirty,
            {
                let (id, b, a) = scaled[k];
                self.document.set_geometry(id, a);
                commands.push(Command::SetGeometry { id, before: b, after: a });
                assert(scaled@.take(k + 1).drop_last() =~= scaled@.take(k as int));
                assert(commands@ =~= canvas_commands(before, after, scaled@.take(k + 1)));
            }
            assert(scaled@.take(scaled@.len() as int) =~= scaled@);
            proof {
                if d0.well_formed() {
                    lemma_geometry_each_ids(d0.objects, scaled@);
                    crate::history::lemma_well_formed_same_ids(d0, geometry_each(d0.objects, scaled@));
                }
            }
            self.document.canvas_width = after.0;
            self.document.canvas_height = after.1;
            let ghost h0 = self.history@;
            let ghost all = commands@;
            if let Some(command) = batch(commands) {
                self.history.record(command);
                assert(self.history@.undo.drop_last() =~= h0.undo);
                proof {
                    let resize = seq![Command::SetCanvasSize { before, after }];
                    let d1 = DocumentModel { canvas_width: after.0, canvas_height: after.1, ..d0 };
                    crate::history::lemma_apply_all_single(Command::SetCanvasSize { before, after }, d0);
                    assert(crate::history::apply_all(resize, d0) == d1);
                    assert(crate::history::valid_all(resize, d0));
                    lemma_geometry_commands(d1, scaled@);
                    crate::history::lemma_apply_all_concat(resize, geometry_commands(scaled@), d0);
                    assert(all =~= resize + geometry_commands(scaled@));
                    if crate::history::consistent(h0, d0) && geometry_chain_valid(d0.objects, scaled@) {
                        crate::history::lemma_record_batch_consistent(h0, all, command, d0);
                        assert(crate::history::apply_all(all, d0) == self.document@);
                    }
                }
            }
            self.is_dirty = true;
        }
    }

    /// Live background update while a color picker is dragged: applied,
    /// not recorded.
    pub fn update_background(&mut self, color: String)
        ensures
            after_update_background(&*old(self), &*final(self), color),
    {
        self.document.background = color;
    }

    /// One undoable background change; nothing happens when `before` and
    /// `after` are the same color text.
    pub fn commit_background(&mut self, before: String, after: String)
        ensures
            after_commit_background(&*old(self), &*final(self), before, after),
    {
        if !crate::text::str_equals(&before, &after) {
            let ghost d0 = self.document@;
            let ghost h0 = self.history@;
            let ghost b = before@;
            self.document.background = after.clone();
            let c = Command::SetBackground { before, after };
            self.history.record(c);
            self.is_dirty = true;
            proof {
                if crate::history::consistent(h0, d0) && d0.background == b {
                    crate::history::lemma_record_consistent(h0, c, d0);
                    assert(c.applied(d0) == self.document@);
                }
            }
        }
    }

    /// Restores the default canvas size and background as one undo step;
    /// only what differs from the defaults is changed and recorded.
    /// `size_differs` says whether the current size differs from
    /// `default_size`. Objects are never touched.
    pub fn reset_canvas_defaults(&mut self, default_size: (F, F), size_differs: bool, default_background: String)
        ensures
            after_reset_canvas_defaults(&*old(self), &*final(self), default_size, size_differs, default_background),
    {
        let ghost step = reset_commands(
            (self.document@.canvas_width, self.document@.canvas_height),
            default_size,
            size_differs,
            self.document.background,
            default_background,
        );
        let mut commands: Vec<Command<F>> = Vec::new();
        if size_differs {
            let before = (self.document.canvas_width, self.document.canvas_height);
            self.document.canvas_width = default_size.0;
            self.document.canvas_height = default_size.1;
            commands.push(Command::SetCanvasSize { before, after: default_size });
        }
        if !crate::text::str_equals(&self.document.background, &default_background) {
            let before = self.document.background.clone();
            self.document.background = default_background.clone();
            commands.push(Command::SetBackground { before, after: default_background });
        }
        assert(commands@ =~= step);
        let any = commands.len() > 0;
        let ghost h0 = self.history@;
        if let Some(command) = batch(commands) {
            self.history.record(command);
            assert(self.history@.undo.drop_last() =~= h0.undo);
            proof {
                let d0 = old(self).document@;
                let bg = old(self).document.background;
                let sizes = if size_differs {
                    seq![Command::SetCanvasSize { before: (d0.canvas_width, d0.canvas_height), after: default_size }]
                } else {
                    Seq::<Command<F>>::empty()
                };
                let colors = if bg@ != default_background@ {
                    seq![Command::SetBackground { before: bg, after: default_background }]
                } else {
                    Seq::<Command<F>>::empty()
                };
                assert(step =~= sizes + colors);
                let d1 = DocumentModel {
                    canvas_width: if size_differs { default_size.0 } else { d0.canvas_width },
                    canvas_height: if size_differs { default_size.1 } else { d0.canvas_height },
                    ..d0
                };
                if size_differs {
                    crate::history::lemma_apply_all_single(
                        Command::SetCanvasSize { before: (d0.canvas_width, d0.canvas_height), after: default_size },
                        d0,
                    );
                }
                assert(crate::history::apply_all(sizes, d0) == d1);
                assert(crate::history::valid_all(sizes, d0));
                if bg@ != default_background@ {
                    crate::history::lemma_apply_all_single(Command::SetBackground { before: bg, after: default_background }, d1);
                }
                assert(crate::history::apply_all(colors, d1) == self.document@);
                assert(crate::history::valid_all(colors, d1));
                crate::history::lemma_apply_all_concat(sizes, colors, d0);
                if crate::history::consistent(h0, d0) {
                    crate::history::lemma_record_batch_consistent(h0, step, command, d0);
                    assert(crate::history::apply_all(step, d0) == self.document@);
                }
            }
        }
        self.is_dirty = self.is_dirty || any;
    }
}

/// What `EditorState::set_active_tool` leaves behind.
pub open spec fn after_set_active_tool<F: Copy>(a: &EditorState<F>, b: &EditorState<F>, tool: Tool) -> bool {
    &&& b.active_tool == tool
    &&& b.clipboard@ == a.clipboard@
    &&& b.expanded_groups@ == a.expanded_groups@
    &&& b.editing_text == a.editing_text
    &&& b.zoom == a.zoom
    &&& b.fit_mode == a.fit_mode
    &&& b.file_path == a.file_path
    &&& b.document_title == a.document_title
    &&& b.selected_ids@ == a.selected_ids@
    &&& same_document(a, b)
    &&& b.history@ == a.history@
    &&& b.is_dirty == a.is_dirty
}

/// What `EditorState::set_selection` leaves behind.
pub open spec fn after_set_selection<F: Copy>(a: &EditorState<F>, b: &EditorState<F>, ids: BTreeSet<ObjectId>) -> bool {
    &&& b.selected_ids@ == ids@
    &&& only_selection_changed(a, b)
}

/// What `EditorState::toggle_group_expanded` leaves behind.
pub open spec fn after_toggle_group_expanded<F: Copy>(a: &EditorState<F>, b: &EditorState<F>, id: ObjectId) -> bool {
    &&& a.expanded_groups@.contains(id) ==> b.expanded_groups@ == a.expanded_groups@.remove(id)
    &&& !a.expanded_groups@.contains(id) ==> b.expanded_groups@ == a.expanded_groups@.insert(id)
    &&& b.active_tool == a.active_tool
    &&& b.clipboard@ == a.clipboard@
    &&& b.editing_text == a.editing_text
    &&& b.zoom == a.zoom
    &&& b.fit_mode == a.fit_mode
    &&& b.file_path == a.file_path
    &&& b.document_title == a.document_title
    &&& b.selected_ids@ == a.selected_ids@
    &&& same_document(a, b)
    &&& b.history@ == a.history@
    &&& b.is_dirty == a.is_dirty
}

/// What `EditorState::set_editing_text` leaves behind.
pub open spec fn after_set_editing_text<F: Copy>(a: &EditorState<F>, b: &EditorState<F>, id: Option<ObjectId>) -> bool {
    &&& b.editing_text == id
    &&& b.active_tool == a.active_tool
    &&& b.clipboard@ == a.clipboard@
    &&& b.expanded_groups@ == a.expanded_groups@
    &&& b.zoom == a.zoom
    &&& b.fit_mode == a.fit_mode
    &&& b.file_path == a.file_path
    &&& b.document_title == a.document_title
    &&& b.selected_ids@ == a.selected_ids@
    &&& same_document(a, b)
    &&& b.history@ == a.history@
    &&& b.is_dirty == a.is_dirty
}

/// What `EditorState::create_object` leaves behind.
pub open spec fn after_create_object<F: Copy>(a: &EditorState<F>, b: &EditorState<F>, kind: ObjectKind<F>, geometry: Geometry<F>) -> bool {
    let id = (a.document@.next_id + 1) as ObjectId;
    &&& b.document@.well_formed()
    &&& b.document@.next_id == id
    &&& b.document@.objects == a.document@.objects.push(b.document@.objects.last())
    &&& b.document@.objects.last().id == id
    &&& b.document@.objects.last().kind == kind
    &&& b.document@.objects.last().geometry == geometry
    &&& b.document@.objects.last().parent_id is None
    &&& b.document@.objects.last().name@ == crate::model::default_name(kind, id)
    &&& b.document@.canvas_width == a.document@.canvas_width
    &&& b.document@.canvas_height == a.document@.canvas_height
    &&& b.document@.background == a.document@.background
    &&& b.document.assets == a.document.assets
    &&& b.history@.undo == a.history@.undo.push(
        Command::CreateObject { object: b.document@.objects.last() },
    )
    &&& b.history@.redo.len() == 0
    &&& b.selected_ids@ == Set::<ObjectId>::empty().insert(id)
    &&& b.active_tool == Tool::Select
    &&& b.editing_text == (if kind is Text { Some(id) } else { None })
    &&& b.clipboard@ == a.clipboard@
    &&& b.expanded_groups@ == a.expanded_groups@
    &&& b.zoom == a.zoom
    &&& b.fit_mode == a.fit_mode
    &&& b.file_path == a.file_path
    &&& b.document_title == a.document_title
    &&& b.is_dirty
    &&& a.history_consistent() ==> b.history_consistent()
    &&& a.document@.well_formed() ==> b.document@.well_formed()
}

/// What `EditorState::update_geometry` leaves behind.
pub open spec fn after_update_geometry<F: Copy>(a: &EditorState<F>, b: &EditorState<F>, id: ObjectId, geometry: Geometry<F>) -> bool {
    &&& b.document@ == (DocumentModel {
        objects: crate::model::with_geometry(a.document@.objects, id, geometry),
        ..a.document@
    })
    &&& b.document.assets == a.document.assets
    &&& b.history@ == a.history@
    &&& b.selected_ids@ == a.selected_ids@
    &&& same_ui(a, b)
    &&& b.is_dirty == a.is_dirty
    &&& a.document@.well_formed() ==> b.document@.well_formed()
}

/// What `EditorState::commit_geometries` leaves behind.
pub open spec fn after_commit_geometries<F: Copy>(a: &EditorState<F>, b: &EditorState<F>, changes: Vec<(ObjectId, Geometry<F>, Geometry<F>)>) -> bool {
    &&& a.history_consistent() && geometry_chain_valid(a.document@.objects, changes@) ==> b.history_consistent()
    &&& b.document@ == (DocumentModel {
        objects: geometry_each(a.document@.objects, changes@),
        ..a.document@
    })
    &&& b.document.assets == a.document.assets
    &&& recorded_as_batch(a, b, geometry_commands(changes@))
    &&& b.selected_ids@ == a.selected_ids@
    &&& same_ui(a, b)
    &&& dirty_follows_history(a, b)
    &&& a.document@.well_formed() ==> b.document@.well_formed()
}

/// What `EditorState::reorder_object` leaves behind.
pub open spec fn after_reorder_object<F: Copy>(a: &EditorState<F>, b: &EditorState<F>, id: ObjectId, new_index: usize) -> bool {
    &&& b.document@ == (DocumentModel {
        objects: crate::model::moved(a.document@.objects, id, new_index as int),
        ..a.document@
    })
    &&& b.document.assets == a.document.assets
    &&& match find_index(a.document@.objects, id) {
        Some(i) => b.history@.undo == a.history@.undo.push(
            Command::Reorder { id, before_index: i as usize, after_index: new_index },
        ) && b.history@.redo.len() == 0,
        None => b.history@ == a.history@,
    }
    &&& b.selected_ids@ == a.selected_ids@
    &&& same_ui(a, b)
    &&& dirty_follows_history(a, b)
    &&& a.history_consistent() ==> b.history_consistent()
    &&& a.document@.well_formed() ==> b.document@.well_formed()
}

/// What `EditorState::delete_objects` leaves behind.
pub open spec fn after_delete_objects<F: Copy>(a: &EditorState<F>, b: &EditorState<F>, ids: Vec<ObjectId>) -> bool {
    &&& ({
        let gone = with_descendants(a.document@.objects, ids@.to_set());
        let removed = entries_in(a.document@.objects, gone, a.document@.objects.len() as int);
        &&& b.document@ == (DocumentModel {
            objects: crate::history::remove_each(a.document@.objects, removed),
            ..a.document@
        })
        &&& b.selected_ids@ == a.selected_ids@.difference(gone)
        &&& if removed.len() == 0 {
            b.history@ == a.history@
        } else {
            &&& b.history@.undo.len() == a.history@.undo.len() + 1
            &&& b.history@.undo.drop_last() == a.history@.undo
            &&& b.history@.undo.last() matches Command::DeleteObjects { removed: r } && r@ == removed
            &&& b.history@.redo.len() == 0
        }
    })
    &&& b.document.assets == a.document.assets
    &&& same_ui(a, b)
    &&& dirty_follows_history(a, b)
    &&& a.history_consistent() ==> b.history_consistent()
    &&& a.document@.well_formed() ==> b.document@.well_formed()
}

/// What `EditorState::copy` leaves behind.
pub open spec fn after_copy<F: Copy>(a: &EditorState<F>, b: &EditorState<F>) -> bool {
    &&& exists|all: Seq<ObjectId>|
        #![trigger objects_for(a.document@.objects, all)]
        sorted_ids(all) && all.to_set() == with_descendants(a.document@.objects, a.selected_ids@)
            && b.clipboard@ == objects_for(a.document@.objects, all)
    &&& same_document(a, b)
    &&& b.selected_ids@ == a.selected_ids@
    &&& b.history@ == a.history@
    &&& b.is_dirty == a.is_dirty
    &&& b.active_tool == a.active_tool
    &&& b.expanded_groups@ == a.expanded_groups@
    &&& b.editing_text == a.editing_text
    &&& b.zoom == a.zoom
    &&& b.fit_mode == a.fit_mode
    &&& b.file_path == a.file_path
    &&& b.document_title == a.document_title
}

/// What `EditorState::update_text_properties` leaves behind.
pub open spec fn after_update_text_properties<F: Copy>(
    a: &EditorState<F>,
    b: &EditorState<F>,
    id: ObjectId,
    properties: TextProperties<F>,
    resized: Option<Geometry<F>>,
) -> bool {
    &&& b.document@ == (DocumentModel {
        objects: text_written(a.document@.objects, id, properties, resized),
        ..a.document@
    })
    &&& b.document.assets == a.document.assets
    &&& b.history@ == a.history@
    &&& b.selected_ids@ == a.selected_ids@
    &&& same_ui(a, b)
    &&& b.is_dirty == a.is_dirty
    &&& a.document@.well_formed() ==> b.document@.well_formed()
}

/// What `EditorState::commit_text_edit` leaves behind.
pub open spec fn after_commit_text_edit<F: Copy>(
    a: &EditorState<F>,
    b: &EditorState<F>,
    id: ObjectId,
    before: TextProperties<F>,
    before_geometry: Geometry<F>,
    changed: bool,
    geometry_changed: bool,
) -> bool {
    &&& b.editing_text is None
    &&& match text_of(a.document@.objects, id) {
        None => {
            &&& same_document(a, b)
            &&& b.history@ == a.history@
            &&& b.selected_ids@ == a.selected_ids@
        },
        Some(after) => {
            let i = find_index(a.document@.objects, id)->0;
            if crate::text::blank(before.content@) && crate::text::blank(after.content@) {
                &&& b.document@ == (DocumentModel {
                    objects: crate::model::without(a.document@.objects, id),
                    ..a.document@
                })
                &&& b.selected_ids@ == a.selected_ids@.remove(id)
                &&& b.history@.undo.len() == a.history@.undo.len() + 1
                &&& b.history@.undo.drop_last() == a.history@.undo
                &&& b.history@.undo.last() matches Command::DeleteObjects { removed }
                    && removed@ == seq![(i as usize, a.document@.objects[i])]
                &&& b.history@.redo.len() == 0
            } else {
                &&& same_document(a, b)
                &&& b.selected_ids@ == a.selected_ids@
                &&& recorded_as_batch(a, b, text_step(
                    id,
                    before,
                    after,
                    changed,
                    if geometry_changed {
                        Some((before_geometry, a.document@.objects[i].geometry))
                    } else {
                        None
                    },
                ))
            }
        },
    }
    &&& b.document.assets == a.document.assets
    &&& same_view(a, b)
    &&& dirty_follows_history(a, b)
    &&& a.document@.well_formed() ==> b.document@.well_formed()
}

/// What `EditorState::commit_text_properties` leaves behind.
pub open spec fn after_commit_text_properties<F: Copy>(
    a: &EditorState<F>,
    b: &EditorState<F>,
    id: ObjectId,
    before: TextProperties<F>,
    after: TextProperties<F>,
    changed: bool,
    resized: Option<Geometry<F>>,
) -> bool {
    &&& match find_index(a.document@.objects, id) {
        None => {
            &&& same_document(a, b)
            &&& b.history@ == a.history@
        },
        Some(i) => {
            &&& b.document@ == (DocumentModel {
                objects: text_written(a.document@.objects, id, after, resized),
                ..a.document@
            })
            &&& recorded_as_batch(a, b, text_step(
                id,
                before,
                after,
                changed,
                match resized {
                    Some(g) => Some((a.document@.objects[i].geometry, g)),
                    None => None,
                },
            ))
        },
    }
    &&& b.document.assets == a.document.assets
    &&& b.selected_ids@ == a.selected_ids@
    &&& same_ui(a, b)
    &&& dirty_follows_history(a, b)
    &&& a.document@.well_formed() ==> b.document@.well_formed()
}

/// What `EditorState::commit_text_resize` leaves behind.
pub open spec fn after_commit_text_resize<F: Copy>(
    a: &EditorState<F>,
    b: &EditorState<F>,
    id: ObjectId,
    before_geometry: Geometry<F>,
    before: TextProperties<F>,
    after: TextProperties<F>,
    changed: bool,
    geometry_changed: bool,
) -> bool {
    &&& match find_index(a.document@.objects, id) {
        None => {
            &&& same_document(a, b)
            &&& b.history@ == a.history@
        },
        Some(i) => {
            &&& b.document@ == (DocumentModel {
                objects: text_written(a.document@.objects, id, after, None),
                ..a.document@
            })
            &&& recorded_as_batch(a, b, text_step(
                id,
                before,
                after,
                changed,
                if geometry_changed {
                    Some((before_geometry, a.document@.objects[i].geometry))
                } else {
                    None
                },
            ))
        },
    }
    &&& b.document.assets == a.document.assets
    &&& b.selected_ids@ == a.selected_ids@
    &&& same_ui(a, b)
    &&& dirty_follows_history(a, b)
    &&& a.document@.well_formed() ==> b.document@.well_formed()
}

/// What `EditorState::import_image` leaves behind.
pub open spec fn after_import_image<F: Copy>(a: &EditorState<F>, b: &EditorState<F>, filename: String, mime_type: String, natural_width: F, natural_height: F, reference: String, geometry: Geometry<F>) -> bool {
    &&& ({
        let id = (a.document@.next_id + 1) as ObjectId;
        let asset_id = (a.document.assets.next_id() + 1) as crate::assets::AssetId;
        let object = DesignObject {
            id,
            name: filename,
            kind: ObjectKind::Image(ImageProperties { asset_id, fit: ImageFit::Fill }),
            geometry,
            parent_id: None,
        };
        &&& b.document@ == (DocumentModel {
            objects: a.document@.objects.push(object),
            next_id: id,
            ..a.document@
        })
        &&& b.document.assets.next_id() == asset_id
        &&& b.document.assets@ == a.document.assets@.insert(
            asset_id,
            Asset { id: asset_id, filename, mime_type, width: natural_width, height: natural_height, reference },
        )
        &&& b.history@.undo == a.history@.undo.push(Command::CreateObject { object })
        &&& b.selected_ids@ == Set::<ObjectId>::empty().insert(id)
    })
    &&& b.document@.well_formed()
    &&& a.document.assets.well_formed() ==> b.document.assets.well_formed()
    &&& b.history@.redo.len() == 0
    &&& b.active_tool == Tool::Select
    &&& b.editing_text == a.editing_text
    &&& b.clipboard@ == a.clipboard@
    &&& b.expanded_groups@ == a.expanded_groups@
    &&& b.zoom == a.zoom
    &&& b.fit_mode == a.fit_mode
    &&& b.file_path == a.file_path
    &&& b.document_title == a.document_title
    &&& b.is_dirty
    &&& a.history_consistent() ==> b.history_consistent()
    &&& a.document@.well_formed() ==> b.document@.well_formed()
}

/// What `EditorState::undo` leaves behind.
pub open spec fn after_undo<F: Copy>(a: &EditorState<F>, b: &EditorState<F>) -> bool {
    &&& a.history@.undo.len() == 0 ==> {
        &&& b.document@ == a.document@
        &&& b.history@ == a.history@
        &&& b.selected_ids@ == a.selected_ids@
    }
    &&& a.history@.undo.len() > 0 ==> {
        let top = a.history@.undo.last();
        &&& b.document@ == top.unapplied(a.document@)
        &&& b.history@.undo == a.history@.undo.drop_last()
        &&& b.history@.redo == a.history@.redo.push(top)
        &&& b.selected_ids@ == top.affected().to_set().filter(
            |x: ObjectId| contains_id(b.document@.objects, x),
        )
    }
    &&& b.document.assets == a.document.assets
    &&& same_ui(a, b)
    &&& dirty_follows_history(a, b)
    &&& a.history_consistent() ==> b.history_consistent()
}

/// What `EditorState::redo` leaves behind.
pub open spec fn after_redo<F: Copy>(a: &EditorState<F>, b: &EditorState<F>) -> bool {
    &&& a.history@.redo.len() == 0 ==> {
        &&& b.document@ == a.document@
        &&& b.history@ == a.history@
        &&& b.selected_ids@ == a.selected_ids@
    }
    &&& a.history@.redo.len() > 0 ==> {
        let top = a.history@.redo.last();
        &&& b.document@ == top.applied(a.document@)
        &&& b.history@.redo == a.history@.redo.drop_last()
        &&& b.history@.undo == a.history@.undo.push(top)
        &&& b.selected_ids@ == top.affected().to_set().filter(
            |x: ObjectId| contains_id(b.document@.objects, x),
        )
    }
    &&& b.document.assets == a.document.assets
    &&& same_ui(a, b)
    &&& dirty_follows_history(a, b)
    &&& a.history_consistent() ==> b.history_consistent()
}

/// What `EditorState::new_document` leaves behind.
pub open spec fn after_new_document<F: Copy>(a: &EditorState<F>, b: &EditorState<F>, blank: DesignDocument<F>, zoom: F) -> bool {
    &&& b.document == blank
    &&& b.selected_ids@.len() == 0
    &&& b.active_tool == Tool::Select
    &&& b.history@.undo.len() == 0
    &&& b.history@.redo.len() == 0
    &&& b.editing_text is None
    &&& b.expanded_groups@.len() == 0
    &&& b.file_path is None
    &&& b.document_title@ == "Untitled"@
    &&& b.zoom == zoom
    &&& b.fit_mode
    &&& !b.is_dirty
    &&& b.clipboard@ == a.clipboard@
}

/// What `EditorState::load_document` leaves behind.
pub open spec fn after_load_document<F: Copy>(a: &EditorState<F>, b: &EditorState<F>, document: DesignDocument<F>, path: String, filename: String, zoom: F) -> bool {
    &&& b.document == document
    &&& b.selected_ids@.len() == 0
    &&& b.active_tool == Tool::Select
    &&& b.history@.undo.len() == 0
    &&& b.history@.redo.len() == 0
    &&& b.editing_text is None
    &&& b.expanded_groups@.len() == 0
    &&& b.file_path == Some(path)
    &&& b.document_title == filename
    &&& b.zoom == zoom
    &&& b.fit_mode
    &&& !b.is_dirty
    &&& b.clipboard@ == a.clipboard@
}

/// What `EditorState::mark_saved` leaves behind.
pub open spec fn after_mark_saved<F: Copy>(a: &EditorState<F>, b: &EditorState<F>, path: String, filename: String) -> bool {
    &&& b.file_path == Some(path)
    &&& b.document_title == filename
    &&& !b.is_dirty
    &&& same_document(a, b)
    &&& b.history@ == a.history@
    &&& b.selected_ids@ == a.selected_ids@
    &&& b.active_tool == a.active_tool
    &&& b.clipboard@ == a.clipboard@
    &&& b.expanded_groups@ == a.expanded_groups@
    &&& b.editing_text == a.editing_text
    &&& b.zoom == a.zoom
    &&& b.fit_mode == a.fit_mode
}

/// What `EditorState::set_zoom` leaves behind.
pub open spec fn after_set_zoom<F: Copy>(a: &EditorState<F>, b: &EditorState<F>, zoom: F) -> bool {
    &&& b.zoom == zoom
    &&& !b.fit_mode
    &&& b.active_tool == a.active_tool
    &&& b.clipboard@ == a.clipboard@
    &&& b.expanded_groups@ == a.expanded_groups@
    &&& b.editing_text == a.editing_text
    &&& b.file_path == a.file_path
    &&& b.document_title == a.document_title
    &&& b.selected_ids@ == a.selected_ids@
    &&& same_document(a, b)
    &&& b.history@ == a.history@
    &&& b.is_dirty == a.is_dirty
}

/// What `EditorState::set_fit_mode` leaves behind.
pub open spec fn after_set_fit_mode<F: Copy>(a: &EditorState<F>, b: &EditorState<F>, enabled: bool) -> bool {
    &&& b.fit_mode == enabled
    &&& b.zoom == a.zoom
    &&& b.active_tool == a.active_tool
    &&& b.clipboard@ == a.clipboard@
    &&& b.expanded_groups@ == a.expanded_groups@
    &&& b.editing_text == a.editing_text
    &&& b.file_path == a.file_path
    &&& b.document_title == a.document_title
    &&& b.selected_ids@ == a.selected_ids@
    &&& same_document(a, b)
    &&& b.history@ == a.history@
    &&& b.is_dirty == a.is_dirty
}

/// What `EditorState::sync_fit_zoom` leaves behind.
pub open spec fn after_sync_fit_zoom<F: Copy>(a: &EditorState<F>, b: &EditorState<F>, zoom: F) -> bool {
    &&& b.zoom == zoom
    &&& b.fit_mode == a.fit_mode
    &&& b.active_tool == a.active_tool
    &&& b.clipboard@ == a.clipboard@
    &&& b.expanded_groups@ == a.expanded_groups@
    &&& b.editing_text == a.editing_text
    &&& b.file_path == a.file_path
    &&& b.document_title == a.document_title
    &&& b.selected_ids@ == a.selected_ids@
    &&& same_document(a, b)
    &&& b.history@ == a.history@
    &&& b.is_dirty == a.is_dirty
}

/// What `EditorState::set_canvas_size` leaves behind.
pub open spec fn after_set_canvas_size<F: Copy>(a: &EditorState<F>, b: &EditorState<F>, after: (F, F), changed: bool, scaled: Vec<(ObjectId, Geometry<F>, Geometry<F>)>) -> bool {
    &&& a.history_consistent() && geometry_chain_valid(a.document@.objects, scaled@) ==> b.history_consistent()
    &&& !changed ==> {
        &&& same_document(a, b)
        &&& b.history@ == a.history@
    }
    &&& changed ==> {
        &&& b.document@ == (DocumentModel {
            objects: geometry_each(a.document@.objects, scaled@),
            canvas_width: after.0,
            canvas_height: after.1,
            ..a.document@
        })
        &&& recorded_as_batch(a, b, canvas_commands(
            (a.document@.canvas_width, a.document@.canvas_height),
            after,
            scaled@,
        ))
    }
    &&& b.document.assets == a.document.assets
    &&& b.selected_ids@ == a.selected_ids@
    &&& same_ui(a, b)
    &&& dirty_follows_history(a, b)
    &&& a.document@.well_formed() ==> b.document@.well_formed()
}

/// What `EditorState::update_background` leaves behind.
pub open spec fn after_update_background<F: Copy>(a: &EditorState<F>, b: &EditorState<F>, color: String) -> bool {
    &&& b.document@ == (DocumentModel { background: color@, ..a.document@ })
    &&& b.document.background == color
    &&& b.document.assets == a.document.assets
    &&& b.history@ == a.history@
    &&& b.selected_ids@ == a.selected_ids@
    &&& same_ui(a, b)
    &&& b.is_dirty == a.is_dirty
}

/// What `EditorState::commit_background` leaves behind.
pub open spec fn after_commit_background<F: Copy>(a: &EditorState<F>, b: &EditorState<F>, before: String, after: String) -> bool {
    &&& before@ == after@ ==> {
        &&& same_document(a, b)
        &&& b.history@ == a.history@
    }
    &&& before@ != after@ ==> {
        &&& b.document@ == (DocumentModel { background: after@, ..a.document@ })
        &&& b.document.background == after
        &&& b.history@.undo == a.history@.undo.push(Command::SetBackground { before, after })
        &&& b.history@.redo.len() == 0
    }
    &&& b.document.assets == a.document.assets
    &&& b.selected_ids@ == a.selected_ids@
    &&& same_ui(a, b)
    &&& dirty_follows_history(a, b)
    &&& a.history_consistent() && a.document@.background == before@ ==> b.history_consistent()
}

/// What `EditorState::reset_canvas_defaults` leaves behind.
pub open spec fn after_reset_canvas_defaults<F: Copy>(a: &EditorState<F>, b: &EditorState<F>, default_size: (F, F), size_differs: bool, default_background: String) -> bool {
    &&& a.history_consistent() ==> b.history_consistent()
    &&& b.document@ == (DocumentModel {
        canvas_width: if size_differs { default_size.0 } else { a.document@.canvas_width },
        canvas_height: if size_differs { default_size.1 } else { a.document@.canvas_height },
        background: default_background@,
        ..a.document@
    })
    &&& recorded_as_batch(a, b, reset_commands(
        (a.document@.canvas_width, a.document@.canvas_height),
        default_size,
        size_differs,
        a.document.background,
        default_background,
    ))
    &&& b.document.assets == a.document.assets
    &&& b.selected_ids@ == a.selected_ids@
    &&& same_ui(a, b)
    &&& dirty_follows_history(a, b)
    &&& a.document@.well_formed() ==> b.document@.well_formed()
}

/// Everything the UI can ask of the editor. Values of the scalar type that
/// an action needs (a clamped zoom, a placed image's geometry, scaled
/// geometries, a new group's box, the geometries of copies, whether a
/// geometry or a set of properties changed) come computed.
pub enum EditorAction<F> {
    SetActiveTool(Tool),
    CreateObject { kind: ObjectKind<F>, geometry: Geometry<F> },
    SetSelection(BTreeSet<ObjectId>),
    /// Live geometry update during a drag: applied, not recorded.
    UpdateGeometry { id: ObjectId, geometry: Geometry<F> },
    /// One undoable step covering geometry changes from `before` to `after`
    /// (a finished drag, a field edit, a nudge, an alignment or
    /// distribution).
    CommitGeometries(Vec<(ObjectId, Geometry<F>, Geometry<F>)>),
    DeleteObjects(Vec<ObjectId>),
    /// Duplicates objects; `shifted` gives each source the geometry of its
    /// copy.
    DuplicateObjects { ids: Vec<ObjectId>, shifted: Vec<(ObjectId, Geometry<F>)> },
    Copy,
    /// Pastes the clipboard; `shifted` gives each source the geometry of
    /// its copy.
    Paste { shifted: Vec<(ObjectId, Geometry<F>)> },
    ToggleGroupExpanded(ObjectId),
    ReorderObject { id: ObjectId, new_index: usize },
    SetEditingText(Option<ObjectId>),
    UpdateTextProperties { id: ObjectId, properties: TextProperties<F>, resized: Option<Geometry<F>> },
    CommitTextEdit { id: ObjectId, before: TextProperties<F>, before_geometry: Geometry<F>, changed: bool, geometry_changed: bool },
    CommitTextProperties { id: ObjectId, before: TextProperties<F>, after: TextProperties<F>, changed: bool, resized: Option<Geometry<F>> },
    CommitTextResize {
        id: ObjectId,
        before_geometry: Geometry<F>,
        before: TextProperties<F>,
        after: TextProperties<F>,
        changed: bool,
        geometry_changed: bool,
    },
    ImportImage {
        filename: String,
        mime_type: String,
        natural_width: F,
        natural_height: F,
        reference: String,
        geometry: Geometry<F>,
    },
    /// One undoable image-property change (the fit).
    CommitImageProperties { id: ObjectId, before: ImageProperties, after: ImageProperties },
    /// Live fill/stroke update of a rectangle or ellipse: applied, not
    /// recorded.
    UpdateShapeProperties { id: ObjectId, properties: ShapeProperties<F> },
    /// One undoable fill/stroke change; `changed` tells whether `before`
    /// and `after` differ.
    CommitShapeProperties { id: ObjectId, before: ShapeProperties<F>, after: ShapeProperties<F>, changed: bool },
    /// Live stroke update of a line: applied, not recorded.
    UpdateLineProperties { id: ObjectId, properties: LineProperties<F> },
    /// One undoable stroke change of a line; `changed` tells whether
    /// `before` and `after` differ.
    CommitLineProperties { id: ObjectId, before: LineProperties<F>, after: LineProperties<F>, changed: bool },
    /// Live stroke update of a freehand stroke: applied, not recorded.
    UpdatePathProperties { id: ObjectId, properties: PathProperties<F> },
    /// One undoable stroke change of a freehand stroke; `changed` tells
    /// whether `before` and `after` differ.
    CommitPathProperties { id: ObjectId, before: PathProperties<F>, after: PathProperties<F>, changed: bool },
    /// Points an image object at a freshly decoded file, as one undo step.
    ReplaceImageAsset {
        id: ObjectId,
        filename: String,
        mime_type: String,
        natural_width: F,
        natural_height: F,
        reference: String,
    },
    /// Groups the selection under a new group whose box is `geometry`.
    GroupSelected { geometry: Geometry<F> },
    UngroupSelected,
    Undo,
    Redo,
    NewDocument { blank: DesignDocument<F>, zoom: F },
    LoadDocument { document: DesignDocument<F>, path: String, filename: String, zoom: F },
    MarkSaved { path: String, filename: String },
    SetZoom(F),
    SetFitMode(bool),
    SyncFitZoom(F),
    SetCanvasSize { after: (F, F), changed: bool, scaled: Vec<(ObjectId, Geometry<F>, Geometry<F>)> },
    UpdateBackground(String),
    CommitBackground { before: String, after: String },
    ResetCanvasDefaults { default_size: (F, F), size_differs: bool, default_background: String },
}

/// What `action` needs of the state it is applied to: a document whose ids
/// are unique, and room for the ids an action hands out.
pub open spec fn can_reduce<F: Copy>(state: &EditorState<F>, action: &EditorAction<F>) -> bool {
    &&& state.document@.well_formed()
    &&& match action {
        EditorAction::CreateObject { .. } => state.document@.next_id < u64::MAX,
        EditorAction::ImportImage { .. } => state.document@.next_id < u64::MAX && state.document.assets.next_id() < u64::MAX,
        EditorAction::ReplaceImageAsset { .. } => state.document.assets.next_id() < u64::MAX,
        EditorAction::GroupSelected { .. } => state.document@.next_id < u64::MAX,
        EditorAction::DuplicateObjects { .. } => state.document@.next_id + state.document@.objects.len() <= u64::MAX,
        EditorAction::Paste { .. } => state.document@.next_id + state.clipboard@.len() <= u64::MAX,
        _ => true,
    }
}

/// What applying `action` to `a` gives `b`: the contract of the method the
/// action names.
pub open spec fn reduced<F: Copy>(a: &EditorState<F>, b: &EditorState<F>, action: EditorAction<F>) -> bool {
    match action {
        EditorAction::SetActiveTool(tool) => after_set_active_tool(a, b, tool),
        EditorAction::CreateObject { kind, geometry } => after_create_object(a, b, kind, geometry),
        EditorAction::SetSelection(ids) => after_set_selection(a, b, ids),
        EditorAction::UpdateGeometry { id, geometry } => after_update_geometry(a, b, id, geometry),
        EditorAction::CommitGeometries(changes) => after_commit_geometries(a, b, changes),
        EditorAction::DeleteObjects(ids) => after_delete_objects(a, b, ids),
        EditorAction::DuplicateObjects { ids, shifted } => after_duplicate_objects(a, b, ids, shifted),
        EditorAction::Copy => after_copy(a, b),
        EditorAction::Paste { shifted } => after_paste(a, b, shifted),
        EditorAction::ToggleGroupExpanded(id) => after_toggle_group_expanded(a, b, id),
        EditorAction::ReorderObject { id, new_index } => after_reorder_object(a, b, id, new_index),
        EditorAction::SetEditingText(id) => after_set_editing_text(a, b, id),
        EditorAction::UpdateTextProperties { id, properties, resized } => after_update_text_properties(a, b, id, properties, resized),
        EditorAction::CommitTextEdit { id, before, before_geometry, changed, geometry_changed } => after_commit_text_edit(
            a,
            b,
            id,
            before,
            before_geometry,
            changed,
            geometry_changed,
        ),
        EditorAction::CommitTextProperties { id, before, after, changed, resized } => after_commit_text_properties(
            a,
            b,
            id,
            before,
            after,
            changed,
            resized,
        ),
        EditorAction::CommitTextResize { id, before_geometry, before, after, changed, geometry_changed } => after_commit_text_resize(
            a,
            b,
            id,
            before_geometry,
            before,
            after,
            changed,
            geometry_changed,
        ),
        EditorAction::ImportImage { filename, mime_type, natural_width, natural_height, reference, geometry } => after_import_image(
            a,
            b,
            filename,
            mime_type,
            natural_width,
            natural_height,
            reference,
            geometry,
        ),
        EditorAction::CommitImageProperties { id, before, after } => after_commit_image_properties(a, b, id, before, after),
        EditorAction::ReplaceImageAsset { id, filename, mime_type, natural_width, natural_height, reference } => after_replace_image_asset(
            a,
            b,
            id,
            filename,
            mime_type,
            natural_width,
            natural_height,
            reference,
        ),
        EditorAction::UpdateShapeProperties { id, properties } => after_update_shape_properties(a, b, id, properties),
        EditorAction::CommitShapeProperties { id, before, after, changed } => after_commit_shape_properties(
            a,
            b,
            id,
            before,
            after,
            changed,
        ),
        EditorAction::UpdateLineProperties { id, properties } => after_update_line_properties(a, b, id, properties),
        EditorAction::CommitLineProperties { id, before, after, changed } => after_commit_line_properties(
            a,
            b,
            id,
            before,
            after,
            changed,
        ),
        EditorAction::UpdatePathProperties { id, properties } => after_update_path_properties(a, b, id, properties),
        EditorAction::CommitPathProperties { id, before, after, changed } => after_commit_path_properties(
            a,
            b,
            id,
            before,
            after,
            changed,
        ),
        EditorAction::GroupSelected { geometry } => after_group_selected(a, b, geometry),
        EditorAction::UngroupSelected => after_ungroup_selected(a, b),
        EditorAction::Undo => after_undo(a, b),
        EditorAction::Redo => after_redo(a, b),
        EditorAction::NewDocument { blank, zoom } => after_new_document(a, b, blank, zoom),
        EditorAction::LoadDocument { document, path, filename, zoom } => after_load_document(a, b, document, path, filename, zoom),
        EditorAction::MarkSaved { path, filename } => after_mark_saved(a, b, path, filename),
        EditorAction::SetZoom(zoom) => after_set_zoom(a, b, zoom),
        EditorAction::SetFitMode(enabled) => after_set_fit_mode(a, b, enabled),
        EditorAction::SyncFitZoom(zoom) => after_sync_fit_zoom(a, b, zoom),
        EditorAction::SetCanvasSize { after, changed, scaled } => after_set_canvas_size(a, b, after, changed, scaled),
        EditorAction::UpdateBackground(color) => after_update_background(a, b, color),
        EditorAction::CommitBackground { before, after } => after_commit_background(a, b, before, after),
        EditorAction::ResetCanvasDefaults { default_size, size_differs, default_background } => after_reset_canvas_defaults(
            a,
            b,
            default_size,
            size_differs,
            default_background,
        ),
    }
}

/// New, Open and a finished save set the dirty flag outright; every other
/// action derives it from the undo stack.
pub open spec fn sets_dirty_outright<F>(action: EditorAction<F>) -> bool {
    action is NewDocument || action is LoadDocument || action is MarkSaved
}

/// When `action`, applied to `state`, keeps a consistent history
/// consistent: the steps it records describe the change from the current
/// document (their earlier values are the current ones), and a document it
/// starts over on has unique ids. The commits that follow live updates
/// record a change the document already shows, so they describe the state
/// before the live updates instead and are not among them; for those, the
/// session laws (`lemma_geometry_session`, `lemma_drag_then_commit`,
/// `lemma_color_drag_then_commit`, `lemma_line_drag_then_commit`,
/// `lemma_path_drag_then_commit`,
/// `lemma_text_edit_session`) state it from the state before the session.
pub open spec fn keeps_history_consistent<F: Copy>(state: &EditorState<F>, action: EditorAction<F>) -> bool {
    match action {
        EditorAction::CommitGeometries(changes) => geometry_chain_valid(state.document@.objects, changes@),
        EditorAction::SetCanvasSize { scaled, .. } => geometry_chain_valid(state.document@.objects, scaled@),
        EditorAction::CommitBackground { before, .. } => state.document@.background == before@,
        EditorAction::NewDocument { blank, .. } => blank@.well_formed(),
        EditorAction::LoadDocument { document, .. } => document@.well_formed(),
        EditorAction::UpdateGeometry { .. } => false,
        EditorAction::UpdateTextProperties { .. } => false,
        EditorAction::CommitTextEdit { .. } => false,
        EditorAction::CommitTextProperties { .. } => false,
        EditorAction::CommitTextResize { .. } => false,
        EditorAction::UpdateBackground(..) => false,
        EditorAction::CommitImageProperties { id, before, after } => (Command::<F>::SetImageProperties { id, before, after }).valid_at(
            state.document@,
        ),
        EditorAction::UpdateShapeProperties { .. } => false,
        EditorAction::CommitShapeProperties { id, before, after, .. } => (Command::<F>::SetShapeProperties {
            id,
            before,
            after,
        }).valid_at(state.document@),
        EditorAction::UpdateLineProperties { .. } => false,
        EditorAction::CommitLineProperties { id, before, after, .. } => (Command::<F>::SetLineProperties {
            id,
            before,
            after,
        }).valid_at(state.document@),
        EditorAction::UpdatePathProperties { .. } => false,
        EditorAction::CommitPathProperties { id, before, after, .. } => (Command::<F>::SetPathProperties {
            id,
            before,
            after,
        }).valid_at(state.document@),
        _ => true,
    }
}

/// When `action`, applied to `state`, keeps the document's ids unique and
/// covered by its counter: always, but for undo and redo, which need a
/// consistent history, and New and Open, which need the document they
/// start over on to be so.
pub open spec fn keeps_well_formed<F: Copy>(state: &EditorState<F>, action: EditorAction<F>) -> bool {
    match action {
        EditorAction::Undo => state.history_consistent(),
        EditorAction::Redo => state.history_consistent(),
        EditorAction::NewDocument { blank, .. } => blank@.well_formed(),
        EditorAction::LoadDocument { document, .. } => document@.well_formed(),
        _ => true,
    }
}

impl<F: Copy> EditorState<F> {
    /// Applies one action. The dirty flag is set outright by New, Open and
    /// a finished save, and otherwise follows the undo stack: it becomes set
    /// exactly when the action recorded, undid or redid a step.
    pub fn reduce(&mut self, action: EditorAction<F>)
        requires
            can_reduce(&*old(self), &action),
        ensures
            reduced(&*old(self), &*final(self), action),
            sets_dirty_outright(action) ==> !final(self).is_dirty,
            !sets_dirty_outright(action) ==> dirty_follows_history(&*old(self), &*final(self)),
            keeps_history_consistent(&*old(self), action) && old(self).history_consistent() ==> final(self).history_consistent(),
            keeps_well_formed(&*old(self), action) && old(self).document@.well_formed() ==> final(self).document@.well_formed(),
    {
        match action {
            EditorAction::SetActiveTool(tool) => self.set_active_tool(tool),
            EditorAction::CreateObject { kind, geometry } => {
                self.create_object(kind, geometry);
            },
            EditorAction::SetSelection(ids) => self.set_selection(ids),
            EditorAction::UpdateGeometry { id, geometry } => self.update_geometry(id, geometry),
            EditorAction::CommitGeometries(changes) => self.commit_geometries(changes),
            EditorAction::DeleteObjects(ids) => self.delete_objects(ids),
            EditorAction::DuplicateObjects { ids, shifted } => self.duplicate_objects(ids, shifted),
            EditorAction::Copy => self.copy(),
            EditorAction::Paste { shifted } => self.paste(shifted),
            EditorAction::ToggleGroupExpanded(id) => self.toggle_group_expanded(id),
            EditorAction::ReorderObject { id, new_index } => self.reorder_object(id, new_index),
            EditorAction::SetEditingText(id) => self.set_editing_text(id),
            EditorAction::UpdateTextProperties { id, properties, resized } => self.update_text_properties(id, properties, resized),
            EditorAction::CommitTextEdit { id, before, before_geometry, changed, geometry_changed } => self.commit_text_edit(
                id,
                before,
                before_geometry,
                changed,
                geometry_changed,
            ),
            EditorAction::CommitTextProperties { id, before, after, changed, resized } => self.commit_text_properties(
                id,
                before,
                after,
                changed,
                resized,
            ),
            EditorAction::CommitTextResize { id, before_geometry, before, after, changed, geometry_changed } => self.commit_text_resize(
                id,
                before_geometry,
                before,
                after,
                changed,
                geometry_changed,
            ),
            EditorAction::ImportImage { filename, mime_type, natural_width, natural_height, reference, geometry } => {
                self.import_image(filename, mime_type, natural_width, natural_height, reference, geometry);
            },
            EditorAction::CommitImageProperties { id, before, after } => self.commit_image_properties(id, before, after),
            EditorAction::ReplaceImageAsset { id, filename, mime_type, natural_width, natural_height, reference } => {
                self.replace_image_asset(id, filename, mime_type, natural_width, natural_height, reference)
            },
            EditorAction::UpdateShapeProperties { id, properties } => self.update_shape_properties(id, properties),
            EditorAction::CommitShapeProperties { id, before, after, changed } => self.commit_shape_properties(id, before, after, changed),
            EditorAction::UpdateLineProperties { id, properties } => self.update_line_properties(id, properties),
            EditorAction::CommitLineProperties { id, before, after, changed } => self.commit_line_properties(id, before, after, changed),
            EditorAction::UpdatePathProperties { id, properties } => self.update_path_properties(id, properties),
            EditorAction::CommitPathProperties { id, before, after, changed } => self.commit_path_properties(id, before, after, changed),
            EditorAction::GroupSelected { geometry } => self.group_selected(geometry),
            EditorAction::UngroupSelected => self.ungroup_selected(),
            EditorAction::Undo => self.undo(),
            EditorAction::Redo => self.redo(),
            EditorAction::NewDocument { blank, zoom } => self.new_document(blank, zoom),
            EditorAction::LoadDocument { document, path, filename, zoom } => self.load_document(document, path, filename, zoom),
            EditorAction::MarkSaved { path, filename } => self.mark_saved(path, filename),
            EditorAction::SetZoom(zoom) => self.set_zoom(zoom),
            EditorAction::SetFitMode(enabled) => self.set_fit_mode(enabled),
            EditorAction::SyncFitZoom(zoom) => self.sync_fit_zoom(zoom),
            EditorAction::SetCanvasSize { after, changed, scaled } => self.set_canvas_size(after, changed, scaled),
            EditorAction::UpdateBackground(color) => self.update_background(color),
            EditorAction::CommitBackground { before, after } => self.commit_background(before, after),
            EditorAction::ResetCanvasDefaults { default_size, size_differs, default_background } => self.reset_canvas_defaults(
                default_size,
                size_differs,
                default_background,
            ),
        }
    }
}

/// Undo followed by redo leaves the document and the history as they were.
pub proof fn lemma_undo_then_redo<F: Copy>(a: &EditorState<F>, b: &EditorState<F>, c: &EditorState<F>)
    requires
        a.history_consistent(),
        a.history@.undo.len() > 0,
        after_undo(a, b),
        after_redo(b, c),
    ensures
        c.document@ == a.document@,
        c.history@ == a.history@,
{
    crate::history::lemma_undo_then_redo(a.history@, a.document@);
    assert(b.history@.redo.last() == a.history@.undo.last());
    assert(c.history@.undo =~= a.history@.undo);
    assert(c.history@.redo =~= a.history@.redo);
}

/// Redo followed by undo leaves the document and the history as they were.
pub proof fn lemma_redo_then_undo<F: Copy>(a: &EditorState<F>, b: &EditorState<F>, c: &EditorState<F>)
    requires
        a.history_consistent(),
        a.history@.redo.len() > 0,
        after_redo(a, b),
        after_undo(b, c),
    ensures
        c.document@ == a.document@,
        c.history@ == a.history@,
{
    crate::history::lemma_redo_then_undo(a.history@, a.document@);
    assert(b.history@.undo.last() == a.history@.redo.last());
    assert(c.history@.undo =~= a.history@.undo);
    assert(c.history@.redo =~= a.history@.redo);
}

/// Undoing a creation takes the new object away again: the objects, canvas
/// and background are those from before (the id counter stays advanced, so
/// the id is never handed out twice).
pub proof fn lemma_create_then_undo<F: Copy>(
    a: &EditorState<F>,
    b: &EditorState<F>,
    c: &EditorState<F>,
    kind: ObjectKind<F>,
    geometry: Geometry<F>,
)
    requires
        a.document@.well_formed(),
        a.document@.next_id < u64::MAX,
        after_create_object(a, b, kind, geometry),
        after_undo(b, c),
    ensures
        c.document@ == (DocumentModel { next_id: (a.document@.next_id + 1) as ObjectId, ..a.document@ }),
{
    let o = b.document@.objects.last();
    assert(!contains_id(a.document@.objects, o.id)) by {
        if contains_id(a.document@.objects, o.id) {
            let i = choose|i: int| 0 <= i < a.document@.objects.len() && a.document@.objects[i].id == o.id;
            assert(a.document@.objects[i].id <= a.document@.next_id);
        }
    }
    crate::object_seq::lemma_push_then_without(a.document@.objects, o);
}

/// Undoing a deletion puts every deleted object back where it was.
pub proof fn lemma_delete_then_undo<F: Copy>(a: &EditorState<F>, b: &EditorState<F>, c: &EditorState<F>, ids: Vec<ObjectId>)
    requires
        a.document@.well_formed(),
        after_delete_objects(a, b, ids),
        b.history@.undo.len() > a.history@.undo.len(),
        after_undo(b, c),
    ensures
        c.document@ == a.document@,
{
    let objects = a.document@.objects;
    let gone = with_descendants(objects, ids@.to_set());
    let removed = entries_in(objects, gone, objects.len() as int);
    vstd::std_specs::vec::axiom_spec_len(&a.document.objects);
    lemma_entries_in_match(objects, gone, objects.len() as int);
    crate::history::lemma_delete_then_restore(objects, removed);
}

/// The image properties of the object `id`, if it exists and is an image.
pub open spec fn image_of<F>(objects: Seq<DesignObject<F>>, id: ObjectId) -> Option<ImageProperties> {
    match find_index(objects, id) {
        Some(i) => match objects[i].kind {
            ObjectKind::Image(props) => Some(props),
            _ => None,
        },
        None => None,
    }
}

impl<F: Copy> EditorState<F> {
    /// One undoable image-property change (the fit, from the Properties
    /// panel); nothing happens when `before` and `after` are the same. The
    /// object, if it exists, becomes an image with `after`.
    pub fn commit_image_properties(&mut self, id: ObjectId, before: ImageProperties, after: ImageProperties)
        ensures
            after_commit_image_properties(&*old(self), &*final(self), id, before, after),
    {
        if before != after {
            let ghost d0 = self.document@;
            let ghost h0 = self.history@;
            self.document.set_kind(id, ObjectKind::Image(after));
            let c = Command::SetImageProperties { id, before, after };
            self.history.record(c);
            self.is_dirty = true;
            proof {
                if crate::history::consistent(h0, d0) && c.valid_at(d0) {
                    crate::history::lemma_record_consistent(h0, c, d0);
                }
            }
        }
    }

    /// "Replace image": registers a freshly decoded file as a new asset and
    /// points the image object `id` at it, its fit and transform kept, as
    /// one undo step. Nothing happens unless `id` is an image object.
    pub fn replace_image_asset(&mut self, id: ObjectId, filename: String, mime_type: String, natural_width: F, natural_height: F, reference: String)
        requires
            old(self).document.assets.next_id() < u64::MAX,
        ensures
            after_replace_image_asset(&*old(self), &*final(self), id, filename, mime_type, natural_width, natural_height, reference),
    {
        let mut current: Option<ImageProperties> = None;
        if let Some(object) = self.document.get(id) {
            if let ObjectKind::Image(props) = &object.kind {
                current = Some(*props);
            }
        }
        if let Some(before) = current {
            let ghost d0 = self.document@;
            let ghost h0 = self.history@;
            let asset_id = self.document.assets.insert(filename, mime_type, natural_width, natural_height, reference);
            let after = ImageProperties { asset_id, ..before };
            self.document.set_kind(id, ObjectKind::Image(after));
            let c = Command::SetImageProperties { id, before, after };
            self.history.record(c);
            self.is_dirty = true;
            proof {
                crate::object_seq::lemma_find_some(d0.objects, id);
                if crate::history::consistent(h0, d0) {
                    crate::history::lemma_record_consistent(h0, c, d0);
                }
            }
        }
    }
}

impl<F: Copy> EditorState<F> {
    /// Live fill/stroke update during a color-picker drag on the rectangle
    /// or ellipse `id`: applied, not recorded.
    pub fn update_shape_properties(&mut self, id: ObjectId, properties: ShapeProperties<F>)
        ensures
            after_update_shape_properties(&*old(self), &*final(self), id, properties),
    {
        self.document.set_shape_properties(id, properties);
    }

    /// One undoable fill/stroke change of the rectangle or ellipse `id`,
    /// from `before` to `after`; `changed` tells whether the two differ, and
    /// nothing happens when they do not.
    pub fn commit_shape_properties(&mut self, id: ObjectId, before: ShapeProperties<F>, after: ShapeProperties<F>, changed: bool)
        ensures
            after_commit_shape_properties(&*old(self), &*final(self), id, before, after, changed),
    {
        if changed {
            let ghost d0 = self.document@;
            let ghost h0 = self.history@;
            self.document.set_shape_properties(id, after);
            let c = Command::SetShapeProperties { id, before, after };
            self.history.record(c);
            self.is_dirty = true;
            proof {
                if crate::history::consistent(h0, d0) && c.valid_at(d0) {
                    crate::history::lemma_record_consistent(h0, c, d0);
                }
            }
        }
    }

    /// Live stroke update of the line `id`: applied (only if `id` is a
    /// line), not recorded.
    pub fn update_line_properties(&mut self, id: ObjectId, properties: LineProperties<F>)
        ensures
            after_update_line_properties(&*old(self), &*final(self), id, properties),
    {
        let is_line = match self.document.get(id) {
            Some(object) => match object.kind {
                ObjectKind::Line(..) => true,
                _ => false,
            },
            None => false,
        };
        if is_line {
            self.document.set_kind(id, ObjectKind::Line(properties));
        }
    }

    /// One undoable stroke change of the line `id`, from `before` to
    /// `after`; `changed` tells whether the two differ, and nothing happens
    /// when they do not.
    pub fn commit_line_properties(&mut self, id: ObjectId, before: LineProperties<F>, after: LineProperties<F>, changed: bool)
        ensures
            after_commit_line_properties(&*old(self), &*final(self), id, before, after, changed),
    {
        if changed {
            let ghost d0 = self.document@;
            let ghost h0 = self.history@;
            self.document.set_kind(id, ObjectKind::Line(after));
            let c = Command::SetLineProperties { id, before, after };
            self.history.record(c);
            self.is_dirty = true;
            proof {
                if crate::history::consistent(h0, d0) && c.valid_at(d0) {
                    crate::history::lemma_record_consistent(h0, c, d0);
                }
            }
        }
    }

    /// Live stroke update of the freehand stroke `id`: applied (only if
    /// `id` is one), not recorded.
    pub fn update_path_properties(&mut self, id: ObjectId, properties: PathProperties<F>)
        ensures
            after_update_path_properties(&*old(self), &*final(self), id, properties),
    {
        let is_path = match self.document.get(id) {
            Some(object) => match object.kind {
                ObjectKind::Path(..) => true,
                _ => false,
            },
            None => false,
        };
        if is_path {
            self.document.set_kind(id, ObjectKind::Path(properties));
        }
    }

    /// One undoable stroke change of the freehand stroke `id`, from
    /// `before` to `after`; `changed` tells whether the two differ, and
    /// nothing happens when they do not.
    pub fn commit_path_properties(&mut self, id: ObjectId, before: PathProperties<F>, after: PathProperties<F>, changed: bool)
        ensures
            after_commit_path_properties(&*old(self), &*final(self), id, before, after, changed),
    {
        if changed {
            let ghost d0 = self.document@;
            let ghost h0 = self.history@;
            self.document.set_kind(id, ObjectKind::Path(after.clone()));
            let c = Command::SetPathProperties { id, before, after };
            self.history.record(c);
            self.is_dirty = true;
            proof {
                if crate::history::consistent(h0, d0) && c.valid_at(d0) {
                    crate::history::lemma_record_consistent(h0, c, d0);
                }
            }
        }
    }
}

/// What `EditorState::update_shape_properties` leaves behind.
pub open spec fn after_update_shape_properties<F: Copy>(a: &EditorState<F>, b: &EditorState<F>, id: ObjectId, properties: ShapeProperties<F>) -> bool {
    &&& b.document@ == (DocumentModel { objects: crate::model::with_shape(a.document@.objects, id, properties), ..a.document@ })
    &&& b.document.assets == a.document.assets
    &&& b.history@ == a.history@
    &&& b.selected_ids@ == a.selected_ids@
    &&& same_ui(a, b)
    &&& b.is_dirty == a.is_dirty
    &&& a.document@.well_formed() ==> b.document@.well_formed()
}

/// What `EditorState::commit_shape_properties` leaves behind.
pub open spec fn after_commit_shape_properties<F: Copy>(
    a: &EditorState<F>,
    b: &EditorState<F>,
    id: ObjectId,
    before: ShapeProperties<F>,
    after: ShapeProperties<F>,
    changed: bool,
) -> bool {
    &&& !changed ==> {
        &&& same_document(a, b)
        &&& b.history@ == a.history@
    }
    &&& changed ==> {
        &&& b.document@ == (DocumentModel { objects: crate::model::with_shape(a.document@.objects, id, after), ..a.document@ })
        &&& b.history@.undo == a.history@.undo.push(Command::SetShapeProperties { id, before, after })
        &&& b.history@.redo.len() == 0
    }
    &&& b.document.assets == a.document.assets
    &&& b.selected_ids@ == a.selected_ids@
    &&& same_ui(a, b)
    &&& dirty_follows_history(a, b)
    &&& a.history_consistent() && (Command::<F>::SetShapeProperties { id, before, after }).valid_at(a.document@) ==> b.history_consistent()
    &&& a.document@.well_formed() ==> b.document@.well_formed()
}

/// What `EditorState::update_line_properties` leaves behind.
pub open spec fn after_update_line_properties<F: Copy>(a: &EditorState<F>, b: &EditorState<F>, id: ObjectId, properties: LineProperties<F>) -> bool {
    &&& match find_index(a.document@.objects, id) {
        Some(i) => a.document@.objects[i].kind is Line ==> b.document@ == (DocumentModel {
            objects: crate::model::with_kind(a.document@.objects, id, ObjectKind::Line(properties)),
            ..a.document@
        }),
        None => true,
    }
    &&& (match find_index(a.document@.objects, id) {
        Some(i) => a.document@.objects[i].kind is Line,
        None => false,
    }) || b.document@ == a.document@
    &&& b.document.assets == a.document.assets
    &&& b.history@ == a.history@
    &&& b.selected_ids@ == a.selected_ids@
    &&& same_ui(a, b)
    &&& b.is_dirty == a.is_dirty
    &&& a.document@.well_formed() ==> b.document@.well_formed()
}

/// What `EditorState::commit_line_properties` leaves behind.
pub open spec fn after_commit_line_properties<F: Copy>(
    a: &EditorState<F>,
    b: &EditorState<F>,
    id: ObjectId,
    before: LineProperties<F>,
    after: LineProperties<F>,
    changed: bool,
) -> bool {
    &&& !changed ==> {
        &&& same_document(a, b)
        &&& b.history@ == a.history@
    }
    &&& changed ==> {
        &&& b.document@ == (DocumentModel {
            objects: crate::model::with_kind(a.document@.objects, id, ObjectKind::Line(after)),
            ..a.document@
        })
        &&& b.history@.undo == a.history@.undo.push(Command::SetLineProperties { id, before, after })
        &&& b.history@.redo.len() == 0
    }
    &&& b.document.assets == a.document.assets
    &&& b.selected_ids@ == a.selected_ids@
    &&& same_ui(a, b)
    &&& dirty_follows_history(a, b)
    &&& a.history_consistent() && (Command::<F>::SetLineProperties { id, before, after }).valid_at(a.document@) ==> b.history_consistent()
    &&& a.document@.well_formed() ==> b.document@.well_formed()
}

/// What `EditorState::update_path_properties` leaves behind.
pub open spec fn after_update_path_properties<F: Copy>(a: &EditorState<F>, b: &EditorState<F>, id: ObjectId, properties: PathProperties<F>) -> bool {
    &&& match find_index(a.document@.objects, id) {
        Some(i) => a.document@.objects[i].kind is Path ==> b.document@ == (DocumentModel {
            objects: crate::model::with_kind(a.document@.objects, id, ObjectKind::Path(properties)),
            ..a.document@
        }),
        None => true,
    }
    &&& (match find_index(a.document@.objects, id) {
        Some(i) => a.document@.objects[i].kind is Path,
        None => false,
    }) || b.document@ == a.document@
    &&& b.document.assets == a.document.assets
    &&& b.history@ == a.history@
    &&& b.selected_ids@ == a.selected_ids@
    &&& same_ui(a, b)
    &&& b.is_dirty == a.is_dirty
    &&& a.document@.well_formed() ==> b.document@.well_formed()
}

/// What `EditorState::commit_path_properties` leaves behind.
pub open spec fn after_commit_path_properties<F: Copy>(
    a: &EditorState<F>,
    b: &EditorState<F>,
    id: ObjectId,
    before: PathProperties<F>,
    after: PathProperties<F>,
    changed: bool,
) -> bool {
    &&& !changed ==> {
        &&& same_document(a, b)
        &&& b.history@ == a.history@
    }
    &&& changed ==> {
        &&& b.document@ == (DocumentModel {
            objects: crate::model::with_kind(a.document@.objects, id, ObjectKind::Path(after)),
            ..a.document@
        })
        &&& b.history@.undo == a.history@.undo.push(Command::SetPathProperties { id, before, after })
        &&& b.history@.redo.len() == 0
    }
    &&& b.document.assets == a.document.assets
    &&& b.selected_ids@ == a.selected_ids@
    &&& same_ui(a, b)
    &&& dirty_follows_history(a, b)
    &&& a.history_consistent() && (Command::<F>::SetPathProperties { id, before, after }).valid_at(a.document@) ==> b.history_consistent()
    &&& a.document@.well_formed() ==> b.document@.well_formed()
}

/// What `EditorState::commit_image_properties` leaves behind.
pub open spec fn after_commit_image_properties<F: Copy>(
    a: &EditorState<F>,
    b: &EditorState<F>,
    id: ObjectId,
    before: ImageProperties,
    after: ImageProperties,
) -> bool {
    &&& before == after ==> {
        &&& same_document(a, b)
        &&& b.history@ == a.history@
    }
    &&& before != after ==> {
        &&& b.document@ == (DocumentModel {
            objects: crate::model::with_kind(a.document@.objects, id, ObjectKind::Image(after)),
            ..a.document@
        })
        &&& b.history@.undo == a.history@.undo.push(Command::SetImageProperties { id, before, after })
        &&& b.history@.redo.len() == 0
    }
    &&& b.document.assets == a.document.assets
    &&& b.selected_ids@ == a.selected_ids@
    &&& same_ui(a, b)
    &&& dirty_follows_history(a, b)
    &&& a.history_consistent() && (Command::<F>::SetImageProperties { id, before, after }).valid_at(a.document@) ==> b.history_consistent()
    &&& a.document@.well_formed() ==> b.document@.well_formed()
}

/// What `EditorState::replace_image_asset` leaves behind.
pub open spec fn after_replace_image_asset<F: Copy>(
    a: &EditorState<F>,
    b: &EditorState<F>,
    id: ObjectId,
    filename: String,
    mime_type: String,
    natural_width: F,
    natural_height: F,
    reference: String,
) -> bool {
    &&& match image_of(a.document@.objects, id) {
        None => {
            &&& same_document(a, b)
            &&& b.history@ == a.history@
        },
        Some(before) => {
            let asset_id = (a.document.assets.next_id() + 1) as crate::assets::AssetId;
            let after = ImageProperties { asset_id, ..before };
            &&& b.document@ == (DocumentModel {
                objects: crate::model::with_kind(a.document@.objects, id, ObjectKind::Image(after)),
                ..a.document@
            })
            &&& b.document.assets.next_id() == asset_id
            &&& b.document.assets@ == a.document.assets@.insert(
                asset_id,
                Asset { id: asset_id, filename, mime_type, width: natural_width, height: natural_height, reference },
            )
            &&& a.document.assets.well_formed() ==> b.document.assets.well_formed()
            &&& b.history@.undo == a.history@.undo.push(Command::SetImageProperties { id, before, after })
            &&& b.history@.redo.len() == 0
        },
    }
    &&& b.selected_ids@ == a.selected_ids@
    &&& same_ui(a, b)
    &&& dirty_follows_history(a, b)
    &&& a.history_consistent() ==> b.history_consistent()
    &&& a.document@.well_formed() ==> b.document@.well_formed()
}

/// The reparenting that puts the objects `members` into the new group
/// `group`: each change names a member once, with its current group and
/// the new one.
pub open spec fn grouping_changes<F>(
    objects: Seq<DesignObject<F>>,
    members: Set<ObjectId>,
    group: ObjectId,
    changes: Seq<(ObjectId, Option<ObjectId>, Option<ObjectId>)>,
) -> bool {
    &&& changes.map_values(|c: (ObjectId, Option<ObjectId>, Option<ObjectId>)| c.0).no_duplicates()
    &&& changes.map_values(|c: (ObjectId, Option<ObjectId>, Option<ObjectId>)| c.0).to_set() == members
    &&& forall|k: int| 0 <= k < changes.len() ==> (#[trigger] changes[k]).1 == parent_of(objects, changes[k].0) && changes[k].2 == Some(group)
}

/// The selected ids that name objects of the document.
pub open spec fn present_selection<F>(objects: Seq<DesignObject<F>>, selected: Set<ObjectId>) -> Set<ObjectId> {
    selected.filter(|x: ObjectId| contains_id(objects, x))
}

impl<F: Copy> EditorState<F> {
    /// Groups the selection: a new group object (named "Group N", placed
    /// on top, its box `geometry` worked out by the caller) takes the
    /// selected objects as members, becomes the selection and is expanded
    /// in the Layers panel, as one undo step. Nothing happens unless at
    /// least two selected objects exist.
    pub fn group_selected(&mut self, geometry: Geometry<F>)
        requires
            old(self).document@.next_id < u64::MAX,
        ensures
            after_group_selected(&*old(self), &*final(self), geometry),
    {
        let ids = ids_of(&self.selected_ids);
        let ghost objects = self.document@.objects;
        let mut members: Vec<ObjectId> = Vec::new();
        let mut parents: Vec<Option<ObjectId>> = Vec::new();
        for k in 0..ids.len()
            invariant
                self.document@.objects == objects,
                ids@.to_set() == self.selected_ids@,
                ids@.no_duplicates(),
                members@.len() == parents@.len(),
                members@.no_duplicates(),
                forall|j: int| 0 <= j < members@.len() ==> #[trigger] parents@[j] == parent_of(objects, members@[j]),
                forall|x: ObjectId| #[trigger] members@.contains(x) <==> (ids@.take(k as int).contains(x) && contains_id(objects, x)),
        {
            let ghost before = members@;
            if let Some(object) = self.document.get(ids[k]) {
                proof {
                    crate::object_seq::lemma_find_some(objects, ids@[k as int]);
                    assert(!before.contains(ids@[k as int])) by {
                        if before.contains(ids@[k as int]) {
                            let t = ids@.take(k as int);
                            let a = choose|a: int| 0 <= a < t.len() && t[a] == ids@[k as int];
                        }
                    }
                }
                members.push(ids[k]);
                parents.push(object.parent_id);
            } else {
                proof {
                    if contains_id(objects, ids@[k as int]) {
                        let i = choose|i: int| 0 <= i < objects.len() && objects[i].id == ids@[k as int];
                        crate::object_seq::lemma_exists_first(objects, ids@[k as int], i);
                    }
                }
            }
            proof {
                let t = ids@.take(k as int);
                let u = ids@.take(k + 1);
                assert(u =~= t.push(ids@[k as int]));
                assert forall|x: ObjectId| #[trigger] members@.contains(x) <==> (u.contains(x) && contains_id(objects, x)) by {
                    if t.contains(x) {
                        let a = choose|a: int| 0 <= a < t.len() && t[a] == x;
                        assert(u[a] == x);
                    }
                    if u.contains(x) {
                        let a = choose|a: int| 0 <= a < u.len() && u[a] == x;
                        if a < k {
                            assert(t[a] == x);
                        }
                    }
                    if members@.contains(x) && !before.contains(x) {
                        assert(x == ids@[k as int]);
                        assert(u[k as int] == x);
                    }
                    if before.contains(x) {
                        let a = choose|a: int| 0 <= a < before.len() && before[a] == x;
                        assert(members@[a] == x);
                    }
                    if x == ids@[k as int] && contains_id(objects, x) {
                        assert(members@[members@.len() - 1] == x);
                    }
                }
            }
        }
        assert(ids@.take(ids@.len() as int) =~= ids@);
        assert(members@.to_set() =~= present_selection(objects, self.selected_ids@));
        proof {
            members@.unique_seq_to_set();
        }
        if members.len() < 2 {
            return;
        }
        let ghost d0 = self.document@;
        let gid = self.document.insert(ObjectKind::Group, geometry);
        let n = self.document.objects.len();
        let group = self.document.objects[n - 1].clone();
        let ghost pushed = self.document@.objects;
        let mut changes: Vec<(ObjectId, Option<ObjectId>, Option<ObjectId>)> = Vec::new();
        for k in 0..members.len()
            invariant
                members@.len() == parents@.len(),
                self.document@ == (DocumentModel {
                    objects: crate::history::reparent_each(pushed, changes@, false),
                    next_id: gid,
                    ..d0
                }),
                self.document.assets == old(self).document.assets,
                self.history@ == old(self).history@,
                self.selected_ids@ == old(self).selected_ids@,
                same_ui(&*old(self), &*self),
                self.is_dirty == old(self).is_dirty,
                changes@.len() == k,
                forall|j: int| 0 <= j < k ==> #[trigger] changes@[j] == (members@[j], parents@[j], Some(gid)),
        {
            let m = members[k];
            let ghost prev = changes@;
            self.document.set_parent(m, Some(gid));
            changes.push((m, parents[k], Some(gid)));
            assert(changes@.drop_last() =~= prev);
            assert(changes@.last() == (m, parents@[k as int], Some(gid)));
        }
        proof {
            let c = changes@;
            assert(c.map_values(|e: (ObjectId, Option<ObjectId>, Option<ObjectId>)| e.0) =~= members@);
            assert forall|k: int| 0 <= k < c.len() implies (#[trigger] c[k]).1 == parent_of(objects, c[k].0) && c[k].2 == Some(gid) by {
                assert(c[k] == (members@[k], parents@[k], Some(gid)));
            }
        }
        proof {
            lemma_reparent_each_ids(pushed, changes@, false);
            let d1 = DocumentModel { objects: pushed, next_id: gid, ..d0 };
            if d0.well_formed() {
                assert(d1.well_formed());
                crate::history::lemma_well_formed_same_ids(d1, crate::history::reparent_each(pushed, changes@, false));
            }
        }
        self.expanded_groups.insert(gid);
        let mut selection = BTreeSet::new();
        selection.insert(gid);
        self.selected_ids = selection;
        let ghost ch = changes@;
        let mut steps: Vec<Command<F>> = Vec::new();
        steps.push(Command::CreateObject { object: group });
        steps.push(Command::SetParent { changes });
        let ghost h0 = self.history@;
        let ghost commands = steps@;
        let batch_step = Command::Batch(steps);
        self.history.record(batch_step);
        assert(self.history@.undo.drop_last() =~= h0.undo);
        assert(self.expanded_groups@ =~= old(self).expanded_groups@.insert(gid));
        self.is_dirty = true;
        proof {
            if crate::history::consistent(h0, d0) {
                let bumped = crate::history::with_counter(d0, gid);
                crate::history::lemma_undo_chain_counter(h0.undo, d0, gid);
                assert(members@.to_set() == present_selection(objects, old(self).selected_ids@));
                lemma_grouping_valid(d0, group, ch, members@.to_set(), commands);
                crate::history::lemma_record_batch_consistent(h0, commands, batch_step, bumped);
                assert(self.history@.redo =~= Seq::<Command<F>>::empty());
                assert(self.history@ == (crate::history::HistoryModel { undo: h0.undo.push(batch_step), redo: Seq::empty() }));
            }
        }
    }
}

/// Creating the group object `group` (the next id) and then moving the
/// objects `members` of `d` into it, as `changes` describes, is valid at
/// each step (on `d` with its counter at the group's id).
proof fn lemma_grouping_valid<F>(
    d: DocumentModel<F>,
    group: DesignObject<F>,
    changes: Seq<(ObjectId, Option<ObjectId>, Option<ObjectId>)>,
    members: Set<ObjectId>,
    commands: Seq<Command<F>>,
)
    requires
        d.well_formed(),
        group.id == d.next_id + 1,
        grouping_changes(d.objects, members, group.id, changes),
        forall|m: ObjectId| #[trigger] members.contains(m) ==> contains_id(d.objects, m),
        commands.len() == 2,
        commands[0] == (Command::CreateObject { object: group }),
        commands[1] matches Command::SetParent { changes: v } && v@ == changes,
    ensures
        crate::history::valid_all(commands, crate::history::with_counter(d, group.id)),
        crate::history::apply_all(commands, crate::history::with_counter(d, group.id)) == (DocumentModel {
            objects: crate::history::reparent_each(d.objects.push(group), changes, false),
            next_id: group.id,
            ..d
        }),
{
    let gid = group.id;
    let bumped = crate::history::with_counter(d, gid);
    let objects = d.objects;
    let pushed = objects.push(group);
    let create = commands[0];
    let reparent = commands[1];
    assert(!contains_id(objects, gid)) by {
        if contains_id(objects, gid) {
            let i = choose|i: int| 0 <= i < objects.len() && objects[i].id == gid;
            assert(objects[i].id <= d.next_id);
        }
    }
    assert(create.valid_at(bumped));
    let mid = create.applied(bumped);
    assert(mid.objects == pushed);
    let f = |c: (ObjectId, Option<ObjectId>, Option<ObjectId>)| c.0;
    assert(crate::history::parent_changes_match(pushed, changes)) by {
        assert forall|a: int, b: int| 0 <= a < changes.len() && 0 <= b < changes.len() && a != b implies (#[trigger] changes[a]).0 != (#[trigger] changes[b]).0 by {
            assert(changes.map_values(f)[a] == changes[a].0);
            assert(changes.map_values(f)[b] == changes[b].0);
        }
        assert forall|k: int| 0 <= k < changes.len() implies match find_index(pushed, (#[trigger] changes[k]).0) {
            Some(i) => pushed[i].parent_id == changes[k].1,
            None => true,
        } by {
            let m = changes[k].0;
            assert(changes.map_values(f)[k] == m);
            assert(changes.map_values(f).to_set().contains(m));
            assert(members.contains(m));
            let i0 = choose|i: int| 0 <= i < objects.len() && objects[i].id == m;
            crate::object_seq::lemma_exists_first(objects, m, i0);
            crate::object_seq::lemma_find_some(objects, m);
            lemma_find_after_push(objects, group, m);
        }
    }
    assert(reparent.valid_at(mid));
    assert(commands.drop_last() =~= seq![create]);
    crate::history::lemma_apply_all_single(create, bumped);
    assert(commands.last() == reparent);
    assert(crate::history::apply_all(commands.drop_last(), bumped) == mid);
    assert(reparent.applied(mid) == (DocumentModel {
        objects: crate::history::reparent_each(pushed, changes, false),
        next_id: gid,
        ..d
    }));
}

/// Undoing a grouping gives the objects back as they were: no group object,
/// every member in its former group (the id counter stays advanced).
pub proof fn lemma_group_then_undo<F: Copy>(a: &EditorState<F>, b: &EditorState<F>, c: &EditorState<F>, geometry: Geometry<F>)
    requires
        a.document@.well_formed(),
        a.document@.next_id < u64::MAX,
        present_selection(a.document@.objects, a.selected_ids@).len() >= 2,
        after_group_selected(a, b, geometry),
        after_undo(b, c),
    ensures
        c.document@ == (DocumentModel { next_id: (a.document@.next_id + 1) as ObjectId, ..a.document@ }),
{
    let members = present_selection(a.document@.objects, a.selected_ids@);
    let gid = (a.document@.next_id + 1) as ObjectId;
    let steps = b.history@.undo.last()->0@;
    let group = steps[0]->object;
    let changes = steps[1]->changes@;
    lemma_grouping_valid(a.document@, group, changes, members, steps);
    let bumped = crate::history::with_counter(a.document@, gid);
    assert forall|i: int| 0 <= i < bumped.objects.len() implies #[trigger] bumped.objects[i].id <= bumped.next_id by {
        assert(a.document@.objects[i].id <= a.document@.next_id);
    }
    lemma_batch_undone(b, c, bumped, steps);
}

/// Undoing a duplication takes the copies away again: the objects are those
/// from before (the id counter stays advanced).
pub proof fn lemma_duplicate_then_undo<F: Copy>(
    a: &EditorState<F>,
    b: &EditorState<F>,
    c: &EditorState<F>,
    ids: Vec<ObjectId>,
    shifted: Vec<(ObjectId, Geometry<F>)>,
)
    requires
        a.document@.well_formed(),
        a.document@.next_id + a.document@.objects.len() <= u64::MAX,
        after_duplicate_objects(a, b, ids, shifted),
        b.history@.undo.len() > a.history@.undo.len(),
        after_undo(b, c),
    ensures
        c.document@.objects == a.document@.objects,
        c.document@.canvas_width == a.document@.canvas_width,
        c.document@.canvas_height == a.document@.canvas_height,
        c.document@.background == a.document@.background,
{
    let all = choose|all: Seq<ObjectId>|
        #![trigger objects_for(a.document@.objects, all)]
        sorted_ids(all) && all.to_set() == with_descendants(a.document@.objects, ids@.to_set())
            && pasted(a, b, objects_for(a.document@.objects, all), shifted@);
    let sources = objects_for(a.document@.objects, all);
    assert(all.no_duplicates()) by {
        assert forall|x: int, y: int| 0 <= x < all.len() && 0 <= y < all.len() && x != y implies all[x] != all[y] by {
            if x < y {
                assert(all[x] < all[y]);
            } else {
                assert(all[y] < all[x]);
            }
        }
    }
    lemma_objects_for_len(a.document@.objects, all);
    lemma_pasted_then_undo(a, b, c, sources, shifted@);
}

/// Undoing a paste takes the copies away again: the objects are those from
/// before (the id counter stays advanced).
pub proof fn lemma_paste_then_undo<F: Copy>(a: &EditorState<F>, b: &EditorState<F>, c: &EditorState<F>, shifted: Vec<(ObjectId, Geometry<F>)>)
    requires
        a.document@.well_formed(),
        a.document@.next_id + a.clipboard@.len() <= u64::MAX,
        a.clipboard@.len() > 0,
        after_paste(a, b, shifted),
        after_undo(b, c),
    ensures
        c.document@.objects == a.document@.objects,
        c.document@.canvas_width == a.document@.canvas_width,
        c.document@.canvas_height == a.document@.canvas_height,
        c.document@.background == a.document@.background,
{
    lemma_pasted_then_undo(a, b, c, a.clipboard@, shifted@);
}

proof fn lemma_pasted_then_undo<F: Copy>(
    a: &EditorState<F>,
    b: &EditorState<F>,
    c: &EditorState<F>,
    sources: Seq<DesignObject<F>>,
    shifted: Seq<(ObjectId, Geometry<F>)>,
)
    requires
        a.document@.well_formed(),
        a.document@.next_id + sources.len() <= u64::MAX,
        sources.len() > 0,
        pasted(a, b, sources, shifted),
        after_undo(b, c),
    ensures
        c.document@.objects == a.document@.objects,
        c.document@.canvas_width == a.document@.canvas_width,
        c.document@.canvas_height == a.document@.canvas_height,
        c.document@.background == a.document@.background,
{
    let d0 = a.document@;
    let base = d0.next_id;
    let created = copies_of(sources, base, shifted);
    let n = (base + sources.len()) as ObjectId;
    let bumped = crate::history::with_counter(d0, n);
    assert forall|i: int| 0 <= i < bumped.objects.len() implies #[trigger] bumped.objects[i].id <= bumped.next_id by {
        assert(d0.objects[i].id <= d0.next_id);
    }
    assert forall|j: int| 0 <= j < created.len() implies #[trigger] created[j].id == base + 1 + j by {
        assert(created[j] == copy_of(sources, base, shifted, j));
    }
    assert forall|i: int| 0 <= i < d0.objects.len() implies #[trigger] d0.objects[i].id <= base by {}
    lemma_creations(bumped, created, base as int, created.len() as int);
    let cs = creations(created);
    assert(cs.take(cs.len() as int) =~= cs);
    assert(created.take(created.len() as int) =~= created);
    if sources.len() == 1 {
        assert(cs[0] == Command::CreateObject { object: created[0] });
    }
    lemma_batch_undone(b, c, bumped, cs);
}

/// An object found in `s` is found at the same place once `x` is put on
/// top.
proof fn lemma_find_after_push<F>(s: Seq<DesignObject<F>>, x: DesignObject<F>, id: ObjectId)
    requires
        find_index(s, id) is Some,
    ensures
        find_index(s.push(x), id) == find_index(s, id),
        s.push(x)[find_index(s, id)->0] == s[find_index(s, id)->0],
{
    let i = find_index(s, id)->0;
    crate::object_seq::lemma_find_some(s, id);
    let t = s.push(x);
    assert(crate::model::is_first_index(t, id, i)) by {
        assert(t[i] == s[i]);
        assert forall|j: int| 0 <= j < i implies t[j].id != id by {
            assert(t[j] == s[j]);
        }
    }
    let k = choose|k: int| crate::model::is_first_index(t, id, k);
    crate::model::lemma_first_index_unique(t, id, i, k);
}

/// What `EditorState::group_selected` leaves behind.
pub open spec fn after_group_selected<F: Copy>(a: &EditorState<F>, b: &EditorState<F>, geometry: Geometry<F>) -> bool {
    let members = present_selection(a.document@.objects, a.selected_ids@);
    let gid = (a.document@.next_id + 1) as ObjectId;
    &&& members.len() < 2 ==> {
        &&& same_document(a, b)
        &&& b.history@ == a.history@
        &&& b.selected_ids@ == a.selected_ids@
        &&& same_ui(a, b)
        &&& b.is_dirty == a.is_dirty
    }
    &&& members.len() >= 2 ==> {
        let group = b.history@.undo.last()->0@[0]->object;
        &&& group == (DesignObject { id: gid, name: group.name, kind: ObjectKind::Group, geometry, parent_id: None })
        &&& group.name@ == crate::model::default_name(ObjectKind::<F>::Group, gid)
        &&& b.history@.undo.len() == a.history@.undo.len() + 1
        &&& b.history@.undo.drop_last() == a.history@.undo
        &&& b.history@.redo.len() == 0
        &&& (b.history@.undo.last() matches Command::Batch(steps) && (steps@.len() == 2 && steps@[0] is CreateObject && (
        steps@[1] matches Command::SetParent { changes } && (grouping_changes(a.document@.objects, members, gid, changes@)
            && b.document@ == (DocumentModel {
            objects: crate::history::reparent_each(a.document@.objects.push(group), changes@, false),
            next_id: gid,
            ..a.document@
        })))))
        &&& b.document.assets == a.document.assets
        &&& b.selected_ids@ == Set::<ObjectId>::empty().insert(gid)
        &&& b.expanded_groups@ == a.expanded_groups@.insert(gid)
        &&& b.active_tool == a.active_tool
        &&& b.clipboard@ == a.clipboard@
        &&& b.editing_text == a.editing_text
        &&& b.zoom == a.zoom
        &&& b.fit_mode == a.fit_mode
        &&& b.file_path == a.file_path
        &&& b.document_title == a.document_title
        &&& b.is_dirty
    }
    &&& a.history_consistent() ==> b.history_consistent()
    &&& a.document@.well_formed() ==> b.document@.well_formed()
}

/// `objects` with the members of each of `groups`, in order, moved up into
/// the group's own group (see `lifted_one`).
pub open spec fn lifted_all<F>(objects: Seq<DesignObject<F>>, groups: Seq<ObjectId>) -> Seq<DesignObject<F>>
    decreases groups.len(),
{
    if groups.len() == 0 {
        objects
    } else {
        lifted_one(lifted_all(objects, groups.drop_last()), groups.last())
    }
}

/// The group changes from `before` to `after` among their first `n`
/// objects, in z-order: each object whose group differs, with its group in
/// `before` and in `after`.
pub open spec fn parent_diff<F>(before: Seq<DesignObject<F>>, after: Seq<DesignObject<F>>, n: int) -> Seq<
    (ObjectId, Option<ObjectId>, Option<ObjectId>),
>
    decreases n,
{
    if n <= 0 {
        Seq::empty()
    } else if after[n - 1].parent_id != before[n - 1].parent_id {
        parent_diff(before, after, n - 1).push((before[n - 1].id, before[n - 1].parent_id, after[n - 1].parent_id))
    } else {
        parent_diff(before, after, n - 1)
    }
}

/// Whether `o` is a member of one of `groups` and not one of them itself.
pub open spec fn is_former_member<F>(o: DesignObject<F>, groups: Set<ObjectId>) -> bool {
    &&& !groups.contains(o.id)
    &&& o.parent_id matches Some(p) && groups.contains(p)
}

/// The ids of the first `n` objects that are members of one of `groups`
/// and not one of them themselves.
pub open spec fn former_members<F>(objects: Seq<DesignObject<F>>, groups: Set<ObjectId>, n: int) -> Set<ObjectId>
    decreases n,
{
    if n <= 0 {
        Set::empty()
    } else if is_former_member(objects[n - 1], groups) {
        former_members(objects, groups, n - 1).insert(objects[n - 1].id)
    } else {
        former_members(objects, groups, n - 1)
    }
}

/// Moving members up changes nothing but groups, object by object.
proof fn lemma_lifted_shape<F>(objects: Seq<DesignObject<F>>, groups: Seq<ObjectId>)
    ensures
        lifted_all(objects, groups).len() == objects.len(),
        forall|j: int|
            0 <= j < objects.len() ==> #[trigger] lifted_all(objects, groups)[j] == (DesignObject {
                parent_id: lifted_all(objects, groups)[j].parent_id,
                ..objects[j]
            }),
    decreases groups.len(),
{
    if groups.len() > 0 {
        lemma_lifted_shape(objects, groups.drop_last());
    }
}

/// Each change `parent_diff` lists is that of one of the first `n` objects
/// whose group differs.
proof fn lemma_parent_diff_entries<F>(before: Seq<DesignObject<F>>, after: Seq<DesignObject<F>>, n: int)
    requires
        after.len() == before.len(),
        0 <= n <= before.len(),
    ensures
        forall|a: int|
            0 <= a < parent_diff(before, after, n).len() ==> exists|j: int|
                0 <= j < n && #[trigger] parent_diff(before, after, n)[a] == (before[j].id, before[j].parent_id, after[j].parent_id)
                    && after[j].parent_id != before[j].parent_id,
    decreases n,
{
    if n > 0 {
        lemma_parent_diff_entries(before, after, n - 1);
        let prev = parent_diff(before, after, n - 1);
        let d = parent_diff(before, after, n);
        assert forall|a: int| 0 <= a < d.len() implies exists|j: int|
            0 <= j < n && #[trigger] d[a] == (before[j].id, before[j].parent_id, after[j].parent_id)
                && after[j].parent_id != before[j].parent_id by {
            if a < prev.len() {
                assert(d[a] == prev[a]);
                let j = choose|j: int|
                    0 <= j < n - 1 && #[trigger] prev[a] == (before[j].id, before[j].parent_id, after[j].parent_id)
                        && after[j].parent_id != before[j].parent_id;
                assert(0 <= j < n);
            } else {
                assert(d[a] == (before[n - 1].id, before[n - 1].parent_id, after[n - 1].parent_id));
            }
        }
    }
}

/// Every one of the first `n` objects whose group differs has its change
/// listed by `parent_diff`.
proof fn lemma_parent_diff_covers<F>(before: Seq<DesignObject<F>>, after: Seq<DesignObject<F>>, n: int, j: int)
    requires
        after.len() == before.len(),
        0 <= j < n <= before.len(),
        after[j].parent_id != before[j].parent_id,
    ensures
        exists|a: int| 0 <= a < parent_diff(before, after, n).len() && #[trigger] parent_diff(before, after, n)[a].0 == before[j].id,
    decreases n,
{
    let prev = parent_diff(before, after, n - 1);
    let d = parent_diff(before, after, n);
    if j < n - 1 {
        lemma_parent_diff_covers(before, after, n - 1, j);
        let a = choose|a: int| 0 <= a < prev.len() && #[trigger] prev[a].0 == before[j].id;
        if after[n - 1].parent_id != before[n - 1].parent_id {
            assert(d[a] == prev[a]);
        }
        assert(d[a].0 == before[j].id);
    } else {
        assert(d[prev.len() as int].0 == before[j].id);
    }
}

/// The changes `parent_diff` lists name distinct objects.
proof fn lemma_parent_diff_distinct<F>(before: Seq<DesignObject<F>>, after: Seq<DesignObject<F>>, n: int)
    requires
        ids_unique(before),
        after.len() == before.len(),
        0 <= n <= before.len(),
    ensures
        forall|a: int, b: int|
            0 <= a < parent_diff(before, after, n).len() && 0 <= b < parent_diff(before, after, n).len() && a != b ==> (
            #[trigger] parent_diff(before, after, n)[a]).0 != (#[trigger] parent_diff(before, after, n)[b]).0,
    decreases n,
{
    if n > 0 {
        lemma_parent_diff_distinct(before, after, n - 1);
        lemma_parent_diff_entries(before, after, n - 1);
        let prev = parent_diff(before, after, n - 1);
        let d = parent_diff(before, after, n);
        if after[n - 1].parent_id != before[n - 1].parent_id {
            assert forall|a: int, b: int| 0 <= a < d.len() && 0 <= b < d.len() && a != b implies (#[trigger] d[a]).0
                != (#[trigger] d[b]).0 by {
                if a < prev.len() && b < prev.len() {
                    assert(d[a] == prev[a] && d[b] == prev[b]);
                } else if a < prev.len() {
                    assert(d[a] == prev[a]);
                    let j = choose|j: int|
                        0 <= j < n - 1 && #[trigger] prev[a] == (before[j].id, before[j].parent_id, after[j].parent_id)
                            && after[j].parent_id != before[j].parent_id;
                    assert(before[j].id != before[n - 1].id);
                } else if b < prev.len() {
                    assert(d[b] == prev[b]);
                    let j = choose|j: int|
                        0 <= j < n - 1 && #[trigger] prev[b] == (before[j].id, before[j].parent_id, after[j].parent_id)
                            && after[j].parent_id != before[j].parent_id;
                    assert(before[j].id != before[n - 1].id);
                }
            }
        } else {
            assert(d == prev);
        }
    }
}

/// Moving the groups' members up as `parent_diff` lists it, then deleting
/// the groups as `entries_in` lists them, is valid at each step on `d`, and
/// leaves the document `ungroup_selected` makes.
proof fn lemma_ungroup_valid<F>(d: DocumentModel<F>, gs: Seq<ObjectId>, commands: Seq<Command<F>>)
    requires
        d.well_formed(),
        d.objects.len() <= usize::MAX,
        commands.len() == 2,
        commands[0] matches Command::SetParent { changes } && changes@ == parent_diff(
            d.objects,
            lifted_all(d.objects, gs),
            d.objects.len() as int,
        ),
        commands[1] matches Command::DeleteObjects { removed } && removed@ == entries_in(
            lifted_all(d.objects, gs),
            gs.to_set(),
            d.objects.len() as int,
        ),
    ensures
        crate::history::valid_all(commands, d),
        crate::history::apply_all(commands, d) == (DocumentModel {
            objects: crate::history::remove_each(
                lifted_all(d.objects, gs),
                entries_in(lifted_all(d.objects, gs), gs.to_set(), d.objects.len() as int),
            ),
            ..d
        }),
{
    let objects = d.objects;
    let n = objects.len() as int;
    let lifted = lifted_all(objects, gs);
    let diff = parent_diff(objects, lifted, n);
    let removed = entries_in(lifted, gs.to_set(), n);
    lemma_lifted_shape(objects, gs);
    lemma_parent_diff_entries(objects, lifted, n);
    lemma_parent_diff_distinct(objects, lifted, n);
    let sp = commands[0];
    let del = commands[1];
    assert(crate::history::parent_changes_match(objects, diff)) by {
        assert forall|k: int| 0 <= k < diff.len() implies match find_index(objects, (#[trigger] diff[k]).0) {
            Some(i) => objects[i].parent_id == diff[k].1,
            None => true,
        } by {
            let j = choose|j: int|
                0 <= j < n && #[trigger] diff[k] == (objects[j].id, objects[j].parent_id, lifted[j].parent_id)
                    && lifted[j].parent_id != objects[j].parent_id;
            crate::model::lemma_find_unique(objects, j);
        }
    }
    assert(sp.valid_at(d));
    crate::history::lemma_reparent_each(objects, diff, false, diff.len() as int);
    assert(diff.take(diff.len() as int) =~= diff);
    let moved = crate::history::reparent_each(objects, diff, false);
    assert(moved =~= lifted) by {
        assert forall|j: int| 0 <= j < n implies #[trigger] moved[j] == lifted[j] by {
            if exists|a: int| 0 <= a < diff.len() && diff[a].0 == objects[j].id {
                let a = choose|a: int| 0 <= a < diff.len() && diff[a].0 == objects[j].id;
                let j2 = choose|j2: int|
                    0 <= j2 < n && #[trigger] diff[a] == (objects[j2].id, objects[j2].parent_id, lifted[j2].parent_id)
                        && lifted[j2].parent_id != objects[j2].parent_id;
                assert(j2 == j);
                assert(crate::history::parent_after(objects[j], diff, diff.len() as int, false) == lifted[j].parent_id);
            } else {
                if lifted[j].parent_id != objects[j].parent_id {
                    lemma_parent_diff_covers(objects, lifted, n, j);
                }
                assert(lifted[j].parent_id == objects[j].parent_id);
            }
        }
    }
    let mid = sp.applied(d);
    assert(mid == (DocumentModel { objects: lifted, ..d }));
    lemma_entries_in_match(lifted, gs.to_set(), n);
    assert(del.valid_at(mid));
    assert(commands.drop_last() =~= seq![sp]);
    crate::history::lemma_apply_all_single(sp, d);
    assert(commands.last() == del);
    assert(crate::history::apply_all(commands.drop_last(), d) == mid);
    assert(del.applied(mid) == (DocumentModel { objects: crate::history::remove_each(lifted, removed), ..d }));
}

/// Whether `id` names a group object of `objects`.
pub open spec fn is_group_in<F>(objects: Seq<DesignObject<F>>, id: ObjectId) -> bool {
    match find_index(objects, id) {
        Some(i) => objects[i].kind is Group,
        None => false,
    }
}

/// The selected ids that name group objects.
pub open spec fn selected_groups<F>(objects: Seq<DesignObject<F>>, selected: Set<ObjectId>) -> Set<ObjectId> {
    selected.filter(|x: ObjectId| is_group_in(objects, x))
}

/// The objects that moving `id` as one unit moves: `id` itself unless it is
/// a group; for a group, every object inside it, directly or through
/// nested groups, that is not itself a group (a group has no shape of its
/// own).
pub open spec fn is_leaf_of<F>(objects: Seq<DesignObject<F>>, id: ObjectId, x: ObjectId) -> bool {
    &&& contains_id(objects, x)
    &&& is_descendant(objects, x, id)
    &&& !is_group_in(objects, x)
}

/// The ids that moving `id` as one unit moves (see `is_leaf_of`), each
/// once.
pub fn leaf_ids_of<F: Copy>(document: &DesignDocument<F>, id: ObjectId) -> (leaves: Vec<ObjectId>)
    requires
        document@.well_formed(),
    ensures
        !is_group_in(document@.objects, id) ==> leaves@ == seq![id],
        is_group_in(document@.objects, id) ==> {
            &&& leaves@.no_duplicates()
            &&& forall|x: ObjectId| leaves@.contains(x) <==> is_leaf_of(document@.objects, id, x)
        },
{
    let is_group = match document.get(id) {
        Some(object) => object.kind.is_group(),
        None => false,
    };
    assert(is_group == is_group_in(document@.objects, id));
    if !is_group {
        let mut leaves: Vec<ObjectId> = Vec::new();
        leaves.push(id);
        return leaves;
    }
    let found = document.descendants_of(id);
    let mut leaves: Vec<ObjectId> = Vec::new();
    for k in 0..found.len()
        invariant
            found@.no_duplicates(),
            forall|x: ObjectId| found@.contains(x) <==> (contains_id(document@.objects, x) && is_descendant(document@.objects, x, id)),
            leaves@.no_duplicates(),
            forall|x: ObjectId| leaves@.contains(x) <==> (found@.take(k as int).contains(x) && !is_group_in(document@.objects, x)),
    {
        let x = found[k];
        let group = match document.get(x) {
            Some(object) => object.kind.is_group(),
            None => false,
        };
        assert(group == is_group_in(document@.objects, x));
        let ghost before = leaves@;
        if !group {
            proof {
                if before.contains(x) {
                    let t = found@.take(k as int);
                    let a = choose|a: int| 0 <= a < t.len() && t[a] == x;
                    assert(found@[a] == found@[k as int]);
                }
            }
            leaves.push(x);
        }
        proof {
            let t = found@.take(k as int);
            let u = found@.take(k + 1);
            assert(u =~= t.push(x));
            assert forall|y: ObjectId| #[trigger] leaves@.contains(y) <==> (u.contains(y) && !is_group_in(document@.objects, y)) by {
                if t.contains(y) {
                    let a = choose|a: int| 0 <= a < t.len() && t[a] == y;
                    assert(u[a] == y);
                }
                if u.contains(y) {
                    let a = choose|a: int| 0 <= a < u.len() && u[a] == y;
                    if a < k {
                        assert(t[a] == y);
                        assert(t.contains(y));
                    } else {
                        assert(y == x);
                    }
                }
                if t.contains(y) && !is_group_in(document@.objects, y) {
                    assert(before.contains(y));
                }
                if before.contains(y) {
                    let a = choose|a: int| 0 <= a < before.len() && before[a] == y;
                    assert(leaves@[a] == y);
                }
                if y == x && !group {
                    assert(leaves@[leaves@.len() - 1] == y);
                }
                if leaves@.contains(y) && !before.contains(y) {
                    let a = choose|a: int| 0 <= a < leaves@.len() && leaves@[a] == y;
                    assert(a == before.len());
                    assert(y == x && !group);
                    assert(u[k as int] == x);
                }
            }
        }
    }
    assert(found@.take(found@.len() as int) =~= found@);
    leaves
}


impl<F: Copy> EditorState<F> {
    /// Ungroups every selected group: the members of each (in ascending id
    /// order) move up to that group's own group, the group objects leave the
    /// document and the Layers panel, and their former members become the
    /// selection, as one undo step that restores every group at the
    /// position it had. Nothing happens when no selected object is a group.
    pub fn ungroup_selected(&mut self)
        requires
            old(self).document@.well_formed(),
        ensures
            after_ungroup_selected(&*old(self), &*final(self)),
    {
        let ids = ids_of(&self.selected_ids);
        let ghost objects = self.document@.objects;
        let mut groups: Vec<ObjectId> = Vec::new();
        for k in 0..ids.len()
            invariant
                self.document@.objects == objects,
                ids@.to_set() == self.selected_ids@,
                sorted_ids(groups@),
                groups@.to_set() == ids@.take(k as int).to_set().filter(|x: ObjectId| is_group_in(objects, x)),
        {
            let ghost before = groups@.to_set();
            let is_group = match self.document.get(ids[k]) {
                Some(object) => object.kind.is_group(),
                None => false,
            };
            if is_group {
                insert_sorted(&mut groups, ids[k]);
            }
            proof {
                let t = ids@.take(k as int);
                let u = ids@.take(k + 1);
                assert(u =~= t.push(ids@[k as int]));
                assert(u.to_set() =~= t.to_set().insert(ids@[k as int])) by {
                    assert forall|x: ObjectId| #[trigger] u.to_set().contains(x) implies t.to_set().insert(ids@[k as int]).contains(x) by {
                        let a = choose|a: int| 0 <= a < u.len() && u[a] == x;
                        if a < k {
                            assert(t[a] == x);
                        }
                    }
                    assert forall|x: ObjectId| #[trigger] t.to_set().contains(x) implies u.to_set().contains(x) by {
                        let a = choose|a: int| 0 <= a < t.len() && t[a] == x;
                        assert(u[a] == x);
                    }
                    assert(u[k as int] == ids@[k as int]);
                }
                assert(groups@.to_set() =~= u.to_set().filter(|x: ObjectId| is_group_in(objects, x)));
            }
        }
        assert(ids@.take(ids@.len() as int) =~= ids@);
        assert(groups@.to_set() =~= selected_groups(objects, self.selected_ids@));
        if groups.len() == 0 {
            assert(ungrouped_by(&*old(self), &*self, groups@));
            return;
        }
        let ghost d0 = self.document@;
        let ghost gone = groups@.to_set();
        let n = self.document.objects.len();
        let mut befores: Vec<Option<ObjectId>> = Vec::new();
        for j in 0..n
            invariant
                n == objects.len(),
                objects == d0.objects,
                self.document@ == d0,
                befores@.len() == j,
                forall|i: int| 0 <= i < j ==> #[trigger] befores@[i] == objects[i].parent_id,
        {
            befores.push(self.document.objects[j].parent_id);
        }
        for k in 0..groups.len()
            invariant
                self.document@ == (DocumentModel { objects: lifted_all(objects, groups@.take(k as int)), ..d0 }),
                self.document.assets == old(self).document.assets,
                self.history@ == old(self).history@,
                self.selected_ids@ == old(self).selected_ids@,
                self.is_dirty == old(self).is_dirty,
                same_ui(&*old(self), &*self),
        {
            self.document.lift_members(groups[k]);
            assert(groups@.take(k + 1).drop_last() =~= groups@.take(k as int));
        }
        assert(groups@.take(groups@.len() as int) =~= groups@);
        let ghost lifted = self.document@.objects;
        proof {
            lemma_lifted_shape(objects, groups@);
        }
        let mut changes: Vec<(ObjectId, Option<ObjectId>, Option<ObjectId>)> = Vec::new();
        let mut selection: BTreeSet<ObjectId> = BTreeSet::new();
        let mut removed: Vec<(usize, DesignObject<F>)> = Vec::new();
        for j in 0..n
            invariant
                n == objects.len(),
                lifted == lifted_all(objects, groups@),
                lifted.len() == n,
                forall|i: int| 0 <= i < n ==> #[trigger] lifted[i] == (DesignObject { parent_id: lifted[i].parent_id, ..objects[i] }),
                self.document@.objects == lifted,
                befores@.len() == n,
                forall|i: int| 0 <= i < n ==> #[trigger] befores@[i] == objects[i].parent_id,
                gone == groups@.to_set(),
                changes@ == parent_diff(objects, lifted, j as int),
                selection@ == former_members(objects, gone, j as int),
                removed@ == entries_in(lifted, gone, j as int),
        {
            let object = &self.document.objects[j];
            let before = befores[j];
            let after = object.parent_id;
            let same = match (before, after) {
                (Some(x), Some(y)) => x == y,
                (None, None) => true,
                _ => false,
            };
            if !same {
                changes.push((object.id, before, after));
            }
            let is_group = crate::model::contains_u64(&groups, object.id);
            let in_group = match before {
                Some(p) => crate::model::contains_u64(&groups, p),
                None => false,
            };
            if !is_group && in_group {
                selection.insert(object.id);
            }
            if is_group {
                removed.push((j, object.clone()));
            }
            assert(lifted[j as int].id == objects[j as int].id);
        }
        for k in 0..removed.len()
            invariant
                self.document@ == (DocumentModel {
                    objects: crate::history::remove_each(lifted, removed@.take(k as int)),
                    ..d0
                }),
                self.document.assets == old(self).document.assets,
                self.history@ == old(self).history@,
                self.selected_ids@ == old(self).selected_ids@,
                self.is_dirty == old(self).is_dirty,
                same_ui(&*old(self), &*self),
        {
            let id = removed[k].1.id;
            self.document.remove(id);
            assert(removed@.take(k + 1).drop_last() =~= removed@.take(k as int));
        }
        assert(removed@.take(removed@.len() as int) =~= removed@);
        let ghost e0 = self.expanded_groups@;
        for k in 0..groups.len()
            invariant
                self.expanded_groups@ == e0.difference(groups@.take(k as int).to_set()),
                self.document@ == (DocumentModel { objects: crate::history::remove_each(lifted, removed@), ..d0 }),
                self.document.assets == old(self).document.assets,
                self.history@ == old(self).history@,
                self.is_dirty == old(self).is_dirty,
                self.active_tool == old(self).active_tool,
                self.clipboard@ == old(self).clipboard@,
                self.editing_text == old(self).editing_text,
                self.zoom == old(self).zoom,
                self.fit_mode == old(self).fit_mode,
                self.file_path == old(self).file_path,
                self.document_title == old(self).document_title,
        {
            self.expanded_groups.remove(&groups[k]);
            proof {
                let t = groups@.take(k as int);
                let u = groups@.take(k + 1);
                assert(u =~= t.push(groups@[k as int]));
                assert(self.expanded_groups@ =~= e0.difference(u.to_set())) by {
                    assert forall|x: ObjectId| #[trigger] u.to_set().contains(x) <==> (t.to_set().contains(x) || x == groups@[k as int]) by {
                        if u.to_set().contains(x) {
                            let a = choose|a: int| 0 <= a < u.len() && u[a] == x;
                            if a < k {
                                assert(t[a] == x);
                            }
                        }
                        if t.to_set().contains(x) {
                            let a = choose|a: int| 0 <= a < t.len() && t[a] == x;
                            assert(u[a] == x);
                        }
                        if x == groups@[k as int] {
                            assert(u[k as int] == x);
                        }
                    }
                }
            }
        }
        self.selected_ids = selection;
        let ghost h0 = self.history@;
        let mut steps: Vec<Command<F>> = Vec::new();
        steps.push(Command::SetParent { changes });
        steps.push(Command::DeleteObjects { removed });
        let ghost commands = steps@;
        let batch_step = Command::Batch(steps);
        self.history.record(batch_step);
        assert(self.history@.undo.drop_last() =~= h0.undo);
        self.is_dirty = true;
        proof {
            vstd::std_specs::vec::axiom_spec_len(&old(self).document.objects);
            lemma_ungroup_valid(d0, groups@, commands);
            crate::history::lemma_undo_inverts_all(commands, d0);
            if crate::history::consistent(h0, d0) {
                crate::history::lemma_record_batch_consistent(h0, commands, batch_step, d0);
                assert(self.history@.redo =~= Seq::<Command<F>>::empty());
                assert(self.history@ == (crate::history::HistoryModel { undo: h0.undo.push(batch_step), redo: Seq::empty() }));
            }
        }
        assert(ungrouped_by(&*old(self), &*self, groups@));
    }
}

/// What ungrouping the groups `gs` of `a` leaves in `b`: `gs` are the
/// selected groups in ascending order; their members move up (see
/// `lifted_all`), the groups are deleted, and one undo step records the
/// group changes and the deletions with the positions the groups had.
pub open spec fn ungrouped_by<F: Copy>(a: &EditorState<F>, b: &EditorState<F>, gs: Seq<ObjectId>) -> bool {
    let objects = a.document@.objects;
    let n = objects.len() as int;
    let lifted = lifted_all(objects, gs);
    let removed = entries_in(lifted, gs.to_set(), n);
    &&& sorted_ids(gs)
    &&& gs.to_set() == selected_groups(objects, a.selected_ids@)
    &&& gs.len() == 0 ==> {
        &&& same_document(a, b)
        &&& b.history@ == a.history@
        &&& b.selected_ids@ == a.selected_ids@
        &&& same_ui(a, b)
        &&& b.is_dirty == a.is_dirty
    }
    &&& gs.len() > 0 ==> {
        &&& b.document@ == (DocumentModel { objects: crate::history::remove_each(lifted, removed), ..a.document@ })
        &&& b.document.assets == a.document.assets
        &&& b.history@.undo.len() == a.history@.undo.len() + 1
        &&& b.history@.undo.drop_last() == a.history@.undo
        &&& b.history@.redo.len() == 0
        &&& (b.history@.undo.last() matches Command::Batch(steps) && (steps@.len() == 2
            && (steps@[0] matches Command::SetParent { changes } && changes@ == parent_diff(objects, lifted, n))
            && (steps@[1] matches Command::DeleteObjects { removed: r } && r@ == removed)))
        &&& b.selected_ids@ == former_members(objects, gs.to_set(), n)
        &&& b.expanded_groups@ == a.expanded_groups@.difference(gs.to_set())
        &&& b.active_tool == a.active_tool
        &&& b.clipboard@ == a.clipboard@
        &&& b.editing_text == a.editing_text
        &&& b.zoom == a.zoom
        &&& b.fit_mode == a.fit_mode
        &&& b.file_path == a.file_path
        &&& b.document_title == a.document_title
        &&& b.is_dirty
    }
    &&& b.document@.well_formed()
    &&& a.history_consistent() ==> b.history_consistent()
}

/// What `EditorState::ungroup_selected` leaves behind: the outcome of
/// ungrouping the selected groups in ascending id order (the one sorted
/// sequence of them).
pub open spec fn after_ungroup_selected<F: Copy>(a: &EditorState<F>, b: &EditorState<F>) -> bool {
    exists|gs: Seq<ObjectId>| #[trigger] ungrouped_by(a, b, gs)
}

/// Undoing an ungrouping gives the document back: every group at the
/// position it had, every member in its former group.
pub proof fn lemma_ungroup_then_undo<F: Copy>(a: &EditorState<F>, b: &EditorState<F>, c: &EditorState<F>)
    requires
        a.document@.well_formed(),
        after_ungroup_selected(a, b),
        b.history@.undo.len() > a.history@.undo.len(),
        after_undo(b, c),
    ensures
        c.document@ == a.document@,
{
    let gs = choose|gs: Seq<ObjectId>| #[trigger] ungrouped_by(a, b, gs);
    let steps = b.history@.undo.last()->0@;
    vstd::std_specs::vec::axiom_spec_len(&a.document.objects);
    lemma_ungroup_valid(a.document@, gs, steps);
    lemma_batch_undone(b, c, a.document@, steps);
}


/// Undoing a step recorded (as `batch` groups `commands`) right after the
/// commands took the document from `d`, each valid where it came, gives `d`
/// back.
proof fn lemma_batch_undone<F: Copy>(b: &EditorState<F>, c: &EditorState<F>, d: DocumentModel<F>, commands: Seq<Command<F>>)
    requires
        d.well_formed(),
        crate::history::valid_all(commands, d),
        b.document@ == crate::history::apply_all(commands, d),
        commands.len() > 0,
        b.history@.undo.len() > 0,
        commands.len() == 1 ==> b.history@.undo.last() == commands[0],
        commands.len() > 1 ==> (b.history@.undo.last() matches Command::Batch(v) && v@ == commands),
        after_undo(b, c),
    ensures
        c.document@ == d,
{
    if commands.len() == 1 {
        assert(commands =~= seq![commands[0]]);
        crate::history::lemma_apply_all_single(commands[0], d);
    }
    crate::history::lemma_undo_inverts(b.history@.undo.last(), d);
}

/// Undoing a layer reorder puts the object back where it was.
pub proof fn lemma_reorder_then_undo<F: Copy>(a: &EditorState<F>, b: &EditorState<F>, c: &EditorState<F>, id: ObjectId, new_index: usize)
    requires
        a.document@.well_formed(),
        find_index(a.document@.objects, id) is Some,
        after_reorder_object(a, b, id, new_index),
        after_undo(b, c),
    ensures
        c.document@ == a.document@,
{
    crate::object_seq::lemma_find_some(a.document@.objects, id);
    vstd::std_specs::vec::axiom_spec_len(&a.document.objects);
    let i = find_index(a.document@.objects, id)->0;
    let top = Command::Reorder { id, before_index: i as usize, after_index: new_index };
    assert(top.valid_at(a.document@));
    crate::history::lemma_undo_inverts(top, a.document@);
}

/// Undoing a background change brings the earlier color back.
pub proof fn lemma_background_then_undo<F: Copy>(a: &EditorState<F>, b: &EditorState<F>, c: &EditorState<F>, before: String, after: String)
    requires
        a.document@.well_formed(),
        a.document@.background == before@,
        before@ != after@,
        after_commit_background(a, b, before, after),
        after_undo(b, c),
    ensures
        c.document@ == a.document@,
{
    crate::history::lemma_undo_inverts(Command::SetBackground { before, after }, a.document@);
}

/// Undoing a geometry commit whose earlier geometries are the document's
/// puts every object back where it was.
pub proof fn lemma_geometries_then_undo<F: Copy>(
    a: &EditorState<F>,
    b: &EditorState<F>,
    c: &EditorState<F>,
    changes: Vec<(ObjectId, Geometry<F>, Geometry<F>)>,
)
    requires
        a.document@.well_formed(),
        changes@.len() > 0,
        geometry_chain_valid(a.document@.objects, changes@),
        after_commit_geometries(a, b, changes),
        after_undo(b, c),
    ensures
        c.document@ == a.document@,
{
    lemma_geometry_commands(a.document@, changes@);
    lemma_batch_undone(b, c, a.document@, geometry_commands(changes@));
}

/// Undoing a canvas resize, with the content scaled along from the
/// document's own geometries, restores the canvas and every object.
pub proof fn lemma_canvas_size_then_undo<F: Copy>(
    a: &EditorState<F>,
    b: &EditorState<F>,
    c: &EditorState<F>,
    after: (F, F),
    scaled: Vec<(ObjectId, Geometry<F>, Geometry<F>)>,
)
    requires
        a.document@.well_formed(),
        geometry_chain_valid(a.document@.objects, scaled@),
        after_set_canvas_size(a, b, after, true, scaled),
        after_undo(b, c),
    ensures
        c.document@ == a.document@,
{
    let d0 = a.document@;
    let before = (d0.canvas_width, d0.canvas_height);
    let resize = seq![Command::SetCanvasSize { before, after }];
    let d1 = DocumentModel { canvas_width: after.0, canvas_height: after.1, ..d0 };
    crate::history::lemma_apply_all_single(Command::SetCanvasSize { before, after }, d0);
    lemma_geometry_commands(d1, scaled@);
    crate::history::lemma_apply_all_concat(resize, geometry_commands(scaled@), d0);
    assert(canvas_commands(before, after, scaled@) =~= resize + geometry_commands(scaled@));
    lemma_batch_undone(b, c, d0, canvas_commands(before, after, scaled@));
}

/// Undoing a reset to the canvas defaults restores the earlier size and
/// background.
pub proof fn lemma_reset_then_undo<F: Copy>(
    a: &EditorState<F>,
    b: &EditorState<F>,
    c: &EditorState<F>,
    default_size: (F, F),
    size_differs: bool,
    default_background: String,
)
    requires
        a.document@.well_formed(),
        size_differs || a.document@.background != default_background@,
        after_reset_canvas_defaults(a, b, default_size, size_differs, default_background),
        after_undo(b, c),
    ensures
        c.document@ == a.document@,
{
    let d0 = a.document@;
    let bg = a.document.background;
    let sizes = if size_differs {
        seq![Command::SetCanvasSize { before: (d0.canvas_width, d0.canvas_height), after: default_size }]
    } else {
        Seq::<Command<F>>::empty()
    };
    let colors = if bg@ != default_background@ {
        seq![Command::SetBackground { before: bg, after: default_background }]
    } else {
        Seq::<Command<F>>::empty()
    };
    let step = reset_commands((d0.canvas_width, d0.canvas_height), default_size, size_differs, bg, default_background);
    assert(step =~= sizes + colors);
    let d1 = DocumentModel {
        canvas_width: if size_differs { default_size.0 } else { d0.canvas_width },
        canvas_height: if size_differs { default_size.1 } else { d0.canvas_height },
        ..d0
    };
    if size_differs {
        crate::history::lemma_apply_all_single(
            Command::SetCanvasSize { before: (d0.canvas_width, d0.canvas_height), after: default_size },
            d0,
        );
    }
    assert(crate::history::apply_all(sizes, d0) == d1);
    if bg@ != default_background@ {
        crate::history::lemma_apply_all_single(Command::SetBackground { before: bg, after: default_background }, d1);
    }
    assert(crate::history::apply_all(colors, d1) == b.document@);
    crate::history::lemma_apply_all_concat(sizes, colors, d0);
    lemma_batch_undone(b, c, d0, step);
}

/// Undoing an image import takes the new object away again (the asset
/// stays registered, unreferenced, and the id counter stays advanced).
pub proof fn lemma_import_then_undo<F: Copy>(
    a: &EditorState<F>,
    b: &EditorState<F>,
    c: &EditorState<F>,
    filename: String,
    mime_type: String,
    natural_width: F,
    natural_height: F,
    reference: String,
    geometry: Geometry<F>,
)
    requires
        a.document@.well_formed(),
        a.document@.next_id < u64::MAX,
        after_import_image(a, b, filename, mime_type, natural_width, natural_height, reference, geometry),
        after_undo(b, c),
    ensures
        c.document@ == (DocumentModel { next_id: (a.document@.next_id + 1) as ObjectId, ..a.document@ }),
{
    let o = b.document@.objects.last();
    assert(!contains_id(a.document@.objects, o.id)) by {
        if contains_id(a.document@.objects, o.id) {
            let i = choose|i: int| 0 <= i < a.document@.objects.len() && a.document@.objects[i].id == o.id;
            assert(a.document@.objects[i].id <= a.document@.next_id);
        }
    }
    crate::object_seq::lemma_push_then_without(a.document@.objects, o);
}

/// A drag recorded as one step. From a state `start` whose history is
/// consistent, live updates lead to `a`: the same history, and a document
/// that differs from `start`'s only in what the commit then overwrites.
/// Committing geometry changes whose earlier values are those of `start`
/// keeps the history consistent, and undoing the commit gives `start`'s
/// document back.
pub proof fn lemma_geometry_session<F: Copy>(
    start: &EditorState<F>,
    a: &EditorState<F>,
    b: &EditorState<F>,
    c: &EditorState<F>,
    changes: Vec<(ObjectId, Geometry<F>, Geometry<F>)>,
)
    requires
        start.history_consistent(),
        a.history@ == start.history@,
        a.document@ == (DocumentModel { objects: a.document@.objects, ..start.document@ }),
        geometry_each(a.document@.objects, changes@) == geometry_each(start.document@.objects, changes@),
        geometry_chain_valid(start.document@.objects, changes@),
        after_commit_geometries(a, b, changes),
        after_undo(b, c),
    ensures
        b.history_consistent(),
        changes@.len() > 0 ==> c.document@ == start.document@,
{
    let d = start.document@;
    let commands = geometry_commands(changes@);
    lemma_geometry_commands(d, changes@);
    assert(b.document@ == crate::history::apply_all(commands, d));
    if changes@.len() == 0 {
        assert(changes@ =~= Seq::<(ObjectId, Geometry<F>, Geometry<F>)>::empty());
        assert(commands.len() == 0);
        assert(b.document@ == d);
    } else {
        assert(commands.len() == changes@.len());
        let top = b.history@.undo.last();
        crate::history::lemma_record_batch_consistent(start.history@, commands, top, d);
        assert(b.history@.redo =~= Seq::<Command<F>>::empty());
        assert(b.history@.undo =~= start.history@.undo.push(top));
        assert(b.history@ == (crate::history::HistoryModel { undo: start.history@.undo.push(top), redo: Seq::empty() }));
        lemma_batch_undone(b, c, d, commands);
    }
}

/// One live move of the object `id`, then its commit from the geometry it
/// had at `start`: one undo step that gives `start`'s document back.
pub proof fn lemma_drag_then_commit<F: Copy>(
    start: &EditorState<F>,
    a: &EditorState<F>,
    b: &EditorState<F>,
    c: &EditorState<F>,
    id: ObjectId,
    live: Geometry<F>,
    changes: Vec<(ObjectId, Geometry<F>, Geometry<F>)>,
)
    requires
        start.history_consistent(),
        after_update_geometry(start, a, id, live),
        changes@.len() == 1,
        changes@[0].0 == id,
        geometry_chain_valid(start.document@.objects, changes@),
        after_commit_geometries(a, b, changes),
        after_undo(b, c),
    ensures
        b.history_consistent(),
        c.document@ == start.document@,
{
    let s = start.document@.objects;
    let after = changes@[0].2;
    crate::object_seq::lemma_with_object_twice(
        s,
        id,
        |o: DesignObject<F>| DesignObject { geometry: live, ..o },
        |o: DesignObject<F>| DesignObject { geometry: after, ..o },
    );
    assert(changes@.drop_last() =~= Seq::<(ObjectId, Geometry<F>, Geometry<F>)>::empty());
    assert(geometry_each(a.document@.objects, changes@) == geometry_each(s, changes@));
    lemma_geometry_session(start, a, b, c, changes);
}

/// A color drag recorded as one step: one live fill or stroke update of the
/// rectangle or ellipse `id`, then its commit from the properties it had at
/// `start`, keeps the history consistent, and undoing the commit gives
/// `start`'s document back.
pub proof fn lemma_color_drag_then_commit<F: Copy>(
    start: &EditorState<F>,
    a: &EditorState<F>,
    b: &EditorState<F>,
    c: &EditorState<F>,
    id: ObjectId,
    live: ShapeProperties<F>,
    before: ShapeProperties<F>,
    after: ShapeProperties<F>,
)
    requires
        start.history_consistent(),
        after_update_shape_properties(start, a, id, live),
        (Command::<F>::SetShapeProperties { id, before, after }).valid_at(start.document@),
        after_commit_shape_properties(a, b, id, before, after, true),
        after_undo(b, c),
    ensures
        b.history_consistent(),
        c.document@ == start.document@,
{
    let d = start.document@;
    let s = d.objects;
    let cmd = Command::<F>::SetShapeProperties { id, before, after };
    match find_index(s, id) {
        Some(i) => {
            if s[i].kind is Rectangle {
                crate::object_seq::lemma_with_object_twice(
                    s,
                    id,
                    |o: DesignObject<F>| DesignObject { kind: ObjectKind::Rectangle(live), ..o },
                    |o: DesignObject<F>| DesignObject { kind: ObjectKind::Rectangle(after), ..o },
                );
                crate::history::lemma_shape_found_again(s, id, ObjectKind::Rectangle(live));
            } else if s[i].kind is Ellipse {
                crate::object_seq::lemma_with_object_twice(
                    s,
                    id,
                    |o: DesignObject<F>| DesignObject { kind: ObjectKind::Ellipse(live), ..o },
                    |o: DesignObject<F>| DesignObject { kind: ObjectKind::Ellipse(after), ..o },
                );
                crate::history::lemma_shape_found_again(s, id, ObjectKind::Ellipse(live));
            }
        },
        None => {},
    }
    assert(b.document@ == cmd.applied(d));
    crate::history::lemma_record_consistent(start.history@, cmd, d);
    assert(b.history@.redo =~= Seq::<Command<F>>::empty());
    assert(b.history@ == (crate::history::HistoryModel { undo: start.history@.undo.push(cmd), redo: Seq::empty() }));
    crate::history::lemma_undo_inverts(cmd, d);
}

/// A stroke drag on a line recorded as one step: one live update of the
/// line `id`, then its commit from the properties it had at `start`, keeps
/// the history consistent, and undoing the commit gives `start`'s document
/// back.
pub proof fn lemma_line_drag_then_commit<F: Copy>(
    start: &EditorState<F>,
    a: &EditorState<F>,
    b: &EditorState<F>,
    c: &EditorState<F>,
    id: ObjectId,
    live: LineProperties<F>,
    before: LineProperties<F>,
    after: LineProperties<F>,
)
    requires
        start.history_consistent(),
        after_update_line_properties(start, a, id, live),
        (Command::<F>::SetLineProperties { id, before, after }).valid_at(start.document@),
        after_commit_line_properties(a, b, id, before, after, true),
        after_undo(b, c),
    ensures
        b.history_consistent(),
        c.document@ == start.document@,
{
    let d = start.document@;
    let s = d.objects;
    let cmd = Command::<F>::SetLineProperties { id, before, after };
    match find_index(s, id) {
        Some(i) => {
            crate::object_seq::lemma_with_object_twice(
                s,
                id,
                |o: DesignObject<F>| DesignObject { kind: ObjectKind::Line(live), ..o },
                |o: DesignObject<F>| DesignObject { kind: ObjectKind::Line(after), ..o },
            );
        },
        None => {},
    }
    assert(b.document@ == cmd.applied(d));
    crate::history::lemma_record_consistent(start.history@, cmd, d);
    assert(b.history@.redo =~= Seq::<Command<F>>::empty());
    assert(b.history@ == (crate::history::HistoryModel { undo: start.history@.undo.push(cmd), redo: Seq::empty() }));
    crate::history::lemma_undo_inverts(cmd, d);
}

/// A color drag on a freehand stroke recorded as one step: one live
/// update of the stroke `id`, then its commit from the properties it had at
/// `start`, keeps the history consistent, and undoing the commit gives
/// `start`'s document back.
pub proof fn lemma_path_drag_then_commit<F: Copy>(
    start: &EditorState<F>,
    a: &EditorState<F>,
    b: &EditorState<F>,
    c: &EditorState<F>,
    id: ObjectId,
    live: PathProperties<F>,
    before: PathProperties<F>,
    after: PathProperties<F>,
)
    requires
        start.history_consistent(),
        after_update_path_properties(start, a, id, live),
        (Command::<F>::SetPathProperties { id, before, after }).valid_at(start.document@),
        after_commit_path_properties(a, b, id, before, after, true),
        after_undo(b, c),
    ensures
        b.history_consistent(),
        c.document@ == start.document@,
{
    let d = start.document@;
    let s = d.objects;
    let cmd = Command::<F>::SetPathProperties { id, before, after };
    match find_index(s, id) {
        Some(i) => {
            crate::object_seq::lemma_with_object_twice(
                s,
                id,
                |o: DesignObject<F>| DesignObject { kind: ObjectKind::Path(live), ..o },
                |o: DesignObject<F>| DesignObject { kind: ObjectKind::Path(after), ..o },
            );
        },
        None => {},
    }
    assert(b.document@ == cmd.applied(d));
    crate::history::lemma_record_consistent(start.history@, cmd, d);
    assert(b.history@.redo =~= Seq::<Command<F>>::empty());
    assert(b.history@ == (crate::history::HistoryModel { undo: start.history@.undo.push(cmd), redo: Seq::empty() }));
    crate::history::lemma_undo_inverts(cmd, d);
}

/// An edit session on a text object recorded as one step. From a state
/// `start` whose history is consistent, one live update gives the text
/// object `id` new properties (and, for auto-sized text, possibly a new
/// geometry); ending the session with the properties and geometry it had
/// at `start`, the properties marked changed and `geometry_changed` telling
/// whether the geometry now differs, keeps the history consistent, and
/// undoing the step gives `start`'s document back. (A session that begins
/// and ends with blank content deletes the object instead, and is not
/// covered here.)
pub proof fn lemma_text_edit_session<F: Copy>(
    start: &EditorState<F>,
    a: &EditorState<F>,
    b: &EditorState<F>,
    c: &EditorState<F>,
    id: ObjectId,
    properties: TextProperties<F>,
    resized: Option<Geometry<F>>,
    before: TextProperties<F>,
    before_geometry: Geometry<F>,
    geometry_changed: bool,
)
    requires
        start.history_consistent(),
        text_of(start.document@.objects, id) == Some(before),
        start.document@.objects[find_index(start.document@.objects, id)->0].geometry == before_geometry,
        after_update_text_properties(start, a, id, properties, resized),
        !(crate::text::blank(before.content@) && crate::text::blank(properties.content@)),
        geometry_changed == (resized matches Some(g) && g != before_geometry),
        after_commit_text_edit(a, b, id, before, before_geometry, true, geometry_changed),
        after_undo(b, c),
    ensures
        b.history_consistent(),
        c.document@ == start.document@,
{
    let d = start.document@;
    let s = d.objects;
    let i = find_index(s, id)->0;
    crate::history::lemma_shape_found_again(s, id, ObjectKind::Text(properties));
    let t1 = crate::model::with_kind(s, id, ObjectKind::Text(properties));
    crate::object_seq::lemma_with_object_ids(s, id, |o: DesignObject<F>| DesignObject { kind: ObjectKind::Text(properties), ..o });
    assert(ids_unique(t1)) by {
        assert forall|x: int, y: int| 0 <= x < t1.len() && 0 <= y < t1.len() && x != y implies t1[x].id != t1[y].id by {
            assert(t1[x].id == s[x].id);
            assert(t1[y].id == s[y].id);
        }
    }
    let set_text = Command::<F>::SetTextProperties { id, before, after: properties };
    assert(set_text.valid_at(d));
    let d1 = set_text.applied(d);
    assert(d1.objects == t1);
    let commands = text_step(id, before, properties, true, if geometry_changed { Some((before_geometry, a.document@.objects[i].geometry)) } else { None });
    match resized {
        Some(g) => {
            let t2 = crate::model::with_geometry(t1, id, g);
            assert(a.document@.objects == t2);
            assert(t2 == t1.update(i, DesignObject { geometry: g, ..t1[i] }));
            assert(ids_unique(t2)) by {
                assert forall|x: int, y: int| 0 <= x < t2.len() && 0 <= y < t2.len() && x != y implies t2[x].id != t2[y].id by {
                    assert(t2[x].id == t1[x].id);
                    assert(t2[y].id == t1[y].id);
                }
            }
            crate::model::lemma_find_unique(t2, i);
            assert(text_of(a.document@.objects, id) == Some(properties));
            if g != before_geometry {
                let set_geometry = Command::<F>::SetGeometry { id, before: before_geometry, after: g };
                assert(commands =~= seq![set_text, set_geometry]);
                assert(set_geometry.valid_at(d1));
                assert(commands.drop_last() =~= seq![set_text]);
                crate::history::lemma_apply_all_single(set_text, d);
                assert(commands.last() == set_geometry);
                assert(crate::history::apply_all(commands.drop_last(), d) == d1);
                assert(set_geometry.applied(d1) == a.document@);
                assert(crate::history::apply_all(commands, d) == a.document@);
                assert(crate::history::valid_all(commands, d));
            } else {
                assert(t2 =~= t1);
                assert(commands =~= seq![set_text]);
                crate::history::lemma_apply_all_single(set_text, d);
            }
        },
        None => {
            assert(a.document@.objects == t1);
            assert(text_of(a.document@.objects, id) == Some(properties));
            assert(commands =~= seq![set_text]);
            crate::history::lemma_apply_all_single(set_text, d);
        },
    }
    assert(b.document@ == crate::history::apply_all(commands, d));
    let top = b.history@.undo.last();
    crate::history::lemma_record_batch_consistent(start.history@, commands, top, d);
    assert(b.history@.redo =~= Seq::<Command<F>>::empty());
    assert(b.history@.undo =~= start.history@.undo.push(top));
    assert(b.history@ == (crate::history::HistoryModel { undo: start.history@.undo.push(top), redo: Seq::empty() }));
    lemma_batch_undone(b, c, d, commands);
}

} // verus!
