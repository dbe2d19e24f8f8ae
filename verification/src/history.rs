//! Undo/redo as a command stack. Each `Command` stores only the small typed
//! data it needs to apply or invert itself (an object, a before/after
//! geometry, an index), never rendered output.

use vstd::prelude::*;

use crate::object_seq::{
    drawn_from, lemma_move_back, lemma_push_then_without, lemma_with_object_ids, lemma_with_object_inverse, keep, kept_below, lemma_keep_index, lemma_keep_nothing, lemma_keep_remove, lemma_keep_unique,
    lemma_kept_below_mono, lemma_kept_below_none_gone,
};
use crate::model::{
    contains_id, find_index, ids_unique, lemma_find_unique, with_object, inserted_at, moved, with_geometry, with_kind, with_parent, with_shape, without, DesignDocument,
    DesignObject, DocumentModel, Geometry, ImageProperties, LineProperties, ObjectId, ObjectKind, PathProperties, ShapeProperties, TextProperties,
};

verus! {

broadcast use vstd::std_specs::vec::group_vec_axioms;

pub enum Command<F> {
    /// A single object was created (draw tool, paste, duplicate).
    CreateObject { object: DesignObject<F> },
    /// One or more objects were removed, each with the index it occupied so
    /// undo can restore the exact original z-order.
    DeleteObjects { removed: Vec<(usize, DesignObject<F>)> },
    /// An object's geometry changed (move, resize, rotate, or a field edit).
    SetGeometry { id: ObjectId, before: Geometry<F>, after: Geometry<F> },
    /// A text object's content or style changed.
    SetTextProperties { id: ObjectId, before: TextProperties<F>, after: TextProperties<F> },
    /// An image object's fit or asset changed (a Properties panel edit, or
    /// "Replace image").
    SetImageProperties { id: ObjectId, before: ImageProperties, after: ImageProperties },
    /// A rectangle's or an ellipse's fill or stroke changed.
    SetShapeProperties { id: ObjectId, before: ShapeProperties<F>, after: ShapeProperties<F> },
    /// A line's stroke color or width changed.
    SetLineProperties { id: ObjectId, before: LineProperties<F>, after: LineProperties<F> },
    /// A freehand stroke's color or width changed (its points never change).
    SetPathProperties { id: ObjectId, before: PathProperties<F>, after: PathProperties<F> },
    /// One or more objects were reparented (grouping/ungrouping).
    SetParent { changes: Vec<(ObjectId, Option<ObjectId>, Option<ObjectId>)> },
    /// An object moved to a different position in z-order.
    Reorder { id: ObjectId, before_index: usize, after_index: usize },
    /// The document canvas width/height changed.
    SetCanvasSize { before: (F, F), after: (F, F) },
    /// The document background color changed.
    SetBackground { before: String, after: String },
    /// Several commands that only make sense as one undo/redo step.
    Batch(Vec<Command<F>>),
}

/// `objects` after removing, in order, the object of each entry of `removed`
/// (by id).
pub open spec fn remove_each<F>(objects: Seq<DesignObject<F>>, removed: Seq<(usize, DesignObject<F>)>) -> Seq<DesignObject<F>>
    decreases removed.len(),
{
    if removed.len() == 0 {
        objects
    } else {
        without(remove_each(objects, removed.drop_last()), removed.last().1.id)
    }
}

/// `objects` after inserting, in order, the object of each entry of
/// `removed` at its recorded index.
pub open spec fn insert_each<F>(objects: Seq<DesignObject<F>>, removed: Seq<(usize, DesignObject<F>)>) -> Seq<DesignObject<F>>
    decreases removed.len(),
{
    if removed.len() == 0 {
        objects
    } else {
        inserted_at(insert_each(objects, removed.drop_last()), removed.last().0 as int, removed.last().1)
    }
}

/// `objects` after giving, in order, each object named in `changes` its
/// earlier group (`undo`) or its later one.
pub open spec fn reparent_each<F>(
    objects: Seq<DesignObject<F>>,
    changes: Seq<(ObjectId, Option<ObjectId>, Option<ObjectId>)>,
    undo: bool,
) -> Seq<DesignObject<F>>
    decreases changes.len(),
{
    if changes.len() == 0 {
        objects
    } else {
        let last = changes.last();
        with_parent(reparent_each(objects, changes.drop_last(), undo), last.0, if undo { last.1 } else { last.2 })
    }
}

impl<F> Command<F> {
    /// The document after this command is applied to `d`.
    pub open spec fn applied(self, d: DocumentModel<F>) -> DocumentModel<F>
        decreases self,
    {
        match self {
            Command::CreateObject { object } => DocumentModel { objects: d.objects.push(object), ..d },
            Command::DeleteObjects { removed } => DocumentModel { objects: remove_each(d.objects, removed@), ..d },
            Command::SetGeometry { id, after, .. } => DocumentModel { objects: with_geometry(d.objects, id, after), ..d },
            Command::SetTextProperties { id, after, .. } => DocumentModel {
                objects: with_kind(d.objects, id, ObjectKind::Text(after)),
                ..d
            },
            Command::SetImageProperties { id, after, .. } => DocumentModel {
                objects: with_kind(d.objects, id, ObjectKind::Image(after)),
                ..d
            },
            Command::SetShapeProperties { id, after, .. } => DocumentModel { objects: with_shape(d.objects, id, after), ..d },
            Command::SetLineProperties { id, after, .. } => DocumentModel {
                objects: with_kind(d.objects, id, ObjectKind::Line(after)),
                ..d
            },
            Command::SetPathProperties { id, after, .. } => DocumentModel {
                objects: with_kind(d.objects, id, ObjectKind::Path(after)),
                ..d
            },
            Command::SetParent { changes } => DocumentModel { objects: reparent_each(d.objects, changes@, false), ..d },
            Command::Reorder { id, after_index, .. } => DocumentModel { objects: moved(d.objects, id, after_index as int), ..d },
            Command::SetCanvasSize { after, .. } => DocumentModel { canvas_width: after.0, canvas_height: after.1, ..d },
            Command::SetBackground { after, .. } => DocumentModel { background: after@, ..d },
            Command::Batch(commands) => apply_all(commands@, d),
        }
    }

    /// The document after this command is undone from `d`.
    pub open spec fn unapplied(self, d: DocumentModel<F>) -> DocumentModel<F>
        decreases self,
    {
        match self {
            Command::CreateObject { object } => DocumentModel { objects: without(d.objects, object.id), ..d },
            Command::DeleteObjects { removed } => DocumentModel { objects: insert_each(d.objects, removed@), ..d },
            Command::SetGeometry { id, before, .. } => DocumentModel { objects: with_geometry(d.objects, id, before), ..d },
            Command::SetTextProperties { id, before, .. } => DocumentModel {
                objects: with_kind(d.objects, id, ObjectKind::Text(before)),
                ..d
            },
            Command::SetImageProperties { id, before, .. } => DocumentModel {
                objects: with_kind(d.objects, id, ObjectKind::Image(before)),
                ..d
            },
            Command::SetShapeProperties { id, before, .. } => DocumentModel { objects: with_shape(d.objects, id, before), ..d },
            Command::SetLineProperties { id, before, .. } => DocumentModel {
                objects: with_kind(d.objects, id, ObjectKind::Line(before)),
                ..d
            },
            Command::SetPathProperties { id, before, .. } => DocumentModel {
                objects: with_kind(d.objects, id, ObjectKind::Path(before)),
                ..d
            },
            Command::SetParent { changes } => DocumentModel { objects: reparent_each(d.objects, changes@, true), ..d },
            Command::Reorder { id, before_index, .. } => DocumentModel { objects: moved(d.objects, id, before_index as int), ..d },
            Command::SetCanvasSize { before, .. } => DocumentModel { canvas_width: before.0, canvas_height: before.1, ..d },
            Command::SetBackground { before, .. } => DocumentModel { background: before@, ..d },
            Command::Batch(commands) => unapply_all(commands@, d),
        }
    }

    /// The ids this command touches, in order.
    pub open spec fn affected(self) -> Seq<ObjectId>
        decreases self,
    {
        match self {
            Command::CreateObject { object } => seq![object.id],
            Command::DeleteObjects { removed } => removed@.map_values(|e: (usize, DesignObject<F>)| e.1.id),
            Command::SetGeometry { id, .. } => seq![id],
            Command::SetTextProperties { id, .. } => seq![id],
            Command::SetImageProperties { id, .. } => seq![id],
            Command::SetShapeProperties { id, .. } => seq![id],
            Command::SetLineProperties { id, .. } => seq![id],
            Command::SetPathProperties { id, .. } => seq![id],
            Command::SetParent { changes } => changes@.map_values(
                |c: (ObjectId, Option<ObjectId>, Option<ObjectId>)| c.0,
            ),
            Command::Reorder { id, .. } => seq![id],
            Command::SetCanvasSize { .. } => Seq::empty(),
            Command::SetBackground { .. } => Seq::empty(),
            Command::Batch(commands) => affected_all(commands@),
        }
    }
}

/// `d` after applying each command of `commands` in order.
pub open spec fn apply_all<F>(commands: Seq<Command<F>>, d: DocumentModel<F>) -> DocumentModel<F>
    decreases commands,
{
    if commands.len() == 0 {
        d
    } else {
        commands.last().applied(apply_all(commands.drop_last(), d))
    }
}

/// `d` after undoing each command of `commands`, last one first.
pub open spec fn unapply_all<F>(commands: Seq<Command<F>>, d: DocumentModel<F>) -> DocumentModel<F>
    decreases commands,
{
    if commands.len() == 0 {
        d
    } else {
        commands[0].unapplied(unapply_all(commands.drop_first(), d))
    }
}

/// The ids touched by each command of `commands`, in order.
pub open spec fn affected_all<F>(commands: Seq<Command<F>>) -> Seq<ObjectId>
    decreases commands,
{
    if commands.len() == 0 {
        Seq::empty()
    } else {
        affected_all(commands.drop_last()) + commands.last().affected()
    }
}



/// Each entry of `removed` names the object at its recorded index in
/// `objects`, and the indices strictly increase.
pub open spec fn removal_matches<F>(objects: Seq<DesignObject<F>>, removed: Seq<(usize, DesignObject<F>)>) -> bool {
    &&& forall|k: int| 0 <= k < removed.len() ==> {
        &&& (#[trigger] removed[k]).0 < objects.len()
        &&& objects[removed[k].0 as int] == removed[k].1
    }
    &&& forall|a: int, b: int| 0 <= a < b < removed.len() ==> (#[trigger] removed[a]).0 < (#[trigger] removed[b]).0
}

/// The changes name distinct objects, and each present object has the
/// recorded earlier group.
pub open spec fn parent_changes_match<F>(
    objects: Seq<DesignObject<F>>,
    changes: Seq<(ObjectId, Option<ObjectId>, Option<ObjectId>)>,
) -> bool {
    &&& forall|a: int, b: int| 0 <= a < changes.len() && 0 <= b < changes.len() && a != b ==> (#[trigger] changes[a]).0 != (#[trigger] changes[b]).0
    &&& forall|k: int| 0 <= k < changes.len() ==> match find_index(objects, (#[trigger] changes[k]).0) {
        Some(i) => objects[i].parent_id == changes[k].1,
        None => true,
    }
}

impl<F> Command<F> {
    /// This command describes a change from `d`: the state it records as
    /// "before" is the one `d` has, so undoing it after applying it gives
    /// `d` back.
    pub open spec fn valid_at(self, d: DocumentModel<F>) -> bool
        decreases self,
    {
        match self {
            Command::CreateObject { object } => !contains_id(d.objects, object.id) && object.id <= d.next_id,
            Command::DeleteObjects { removed } => removal_matches(d.objects, removed@),
            Command::SetGeometry { id, before, .. } => match find_index(d.objects, id) {
                Some(i) => d.objects[i].geometry == before,
                None => true,
            },
            Command::SetTextProperties { id, before, .. } => match find_index(d.objects, id) {
                Some(i) => d.objects[i].kind == (ObjectKind::<F>::Text(before)),
                None => true,
            },
            Command::SetImageProperties { id, before, .. } => match find_index(d.objects, id) {
                Some(i) => d.objects[i].kind == (ObjectKind::<F>::Image(before)),
                None => true,
            },
            Command::SetShapeProperties { id, before, .. } => match find_index(d.objects, id) {
                Some(i) => d.objects[i].kind == ObjectKind::Rectangle(before) || d.objects[i].kind == ObjectKind::Ellipse(before),
                None => true,
            },
            Command::SetLineProperties { id, before, .. } => match find_index(d.objects, id) {
                Some(i) => d.objects[i].kind == ObjectKind::Line(before),
                None => true,
            },
            Command::SetPathProperties { id, before, .. } => match find_index(d.objects, id) {
                Some(i) => d.objects[i].kind == ObjectKind::Path(before),
                None => true,
            },
            Command::SetParent { changes } => parent_changes_match(d.objects, changes@),
            Command::Reorder { id, before_index, .. } => match find_index(d.objects, id) {
                Some(i) => i == before_index,
                None => true,
            },
            Command::SetCanvasSize { before, .. } => d.canvas_width == before.0 && d.canvas_height == before.1,
            Command::SetBackground { before, .. } => d.background == before@,
            Command::Batch(commands) => valid_all(commands@, d),
        }
    }
}

/// Each command of `commands` is valid at the state the earlier ones lead to.
pub open spec fn valid_all<F>(commands: Seq<Command<F>>, d: DocumentModel<F>) -> bool
    decreases commands,
{
    if commands.len() == 0 {
        true
    } else {
        valid_all(commands.drop_last(), d) && commands.last().valid_at(apply_all(commands.drop_last(), d))
    }
}

impl<F: Copy> Command<F> {
    pub fn apply(&self, document: &mut DesignDocument<F>)
        ensures
            final(document)@ == self.applied(old(document)@),
            final(document).assets == old(document).assets,
        decreases self,
    {
        let ghost start = document@;
        match self {
            Command::CreateObject { object } => document.insert_object(object.clone()),
            Command::DeleteObjects { removed } => {
                for k in 0..removed.len()
                    invariant
                        document@ == (DocumentModel { objects: remove_each(start.objects, removed@.take(k as int)), ..start }),
                        document.assets == old(document).assets,
                {
                    document.remove(removed[k].1.id);
                    assert(removed@.take(k + 1).drop_last() =~= removed@.take(k as int));
                }
                assert(removed@.take(removed@.len() as int) =~= removed@);
            },
            Command::SetGeometry { id, after, .. } => document.set_geometry(*id, *after),
            Command::SetTextProperties { id, after, .. } => {
                document.set_kind(*id, ObjectKind::Text(after.clone()))
            },
            Command::SetImageProperties { id, after, .. } => document.set_kind(*id, ObjectKind::Image(*after)),
            Command::SetShapeProperties { id, after, .. } => document.set_shape_properties(*id, *after),
            Command::SetLineProperties { id, after, .. } => document.set_kind(*id, ObjectKind::Line(*after)),
            Command::SetPathProperties { id, after, .. } => document.set_kind(*id, ObjectKind::Path(after.clone())),
            Command::SetParent { changes } => {
                for k in 0..changes.len()
                    invariant
                        document@ == (DocumentModel { objects: reparent_each(start.objects, changes@.take(k as int), false), ..start }),
                        document.assets == old(document).assets,
                {
                    let (id, _, after) = changes[k];
                    document.set_parent(id, after);
                    assert(changes@.take(k + 1).drop_last() =~= changes@.take(k as int));
                }
                assert(changes@.take(changes@.len() as int) =~= changes@);
            },
            Command::Reorder { id, after_index, .. } => {
                document.move_to_index(*id, *after_index);
            },
            Command::SetCanvasSize { after, .. } => {
                document.canvas_width = after.0;
                document.canvas_height = after.1;
            },
            Command::SetBackground { after, .. } => {
                document.background = after.clone();
            },
            Command::Batch(commands) => {
                #[verifier::loop_isolation(false)]
                for k in 0..commands.len()
                    invariant
                        document@ == apply_all(commands@.take(k as int), start),
                        document.assets == old(document).assets,
                {
                    proof {
                        assert(decreases_to!(*commands => commands[k as int]));
                    }
                    commands[k].apply(document);
                    assert(commands@.take(k + 1).drop_last() =~= commands@.take(k as int));
                }
                assert(commands@.take(commands@.len() as int) =~= commands@);
            },
        }
    }

    pub fn unapply(&self, document: &mut DesignDocument<F>)
        ensures
            final(document)@ == self.unapplied(old(document)@),
            final(document).assets == old(document).assets,
        decreases self,
    {
        let ghost start = document@;
        match self {
            Command::CreateObject { object } => document.remove(object.id),
            Command::DeleteObjects { removed } => {
                for k in 0..removed.len()
                    invariant
                        document@ == (DocumentModel { objects: insert_each(start.objects, removed@.take(k as int)), ..start }),
                        document.assets == old(document).assets,
                {
                    let (index, object) = &removed[k];
                    document.insert_at(*index, object.clone());
                    assert(removed@.take(k + 1).drop_last() =~= removed@.take(k as int));
                }
                assert(removed@.take(removed@.len() as int) =~= removed@);
            },
            Command::SetGeometry { id, before, .. } => document.set_geometry(*id, *before),
            Command::SetTextProperties { id, before, .. } => {
                document.set_kind(*id, ObjectKind::Text(before.clone()))
            },
            Command::SetImageProperties { id, before, .. } => document.set_kind(*id, ObjectKind::Image(*before)),
            Command::SetShapeProperties { id, before, .. } => document.set_shape_properties(*id, *before),
            Command::SetLineProperties { id, before, .. } => document.set_kind(*id, ObjectKind::Line(*before)),
            Command::SetPathProperties { id, before, .. } => document.set_kind(*id, ObjectKind::Path(before.clone())),
            Command::SetParent { changes } => {
                for k in 0..changes.len()
                    invariant
                        document@ == (DocumentModel { objects: reparent_each(start.objects, changes@.take(k as int), true), ..start }),
                        document.assets == old(document).assets,
                {
                    let (id, before, _) = changes[k];
                    document.set_parent(id, before);
                    assert(changes@.take(k + 1).drop_last() =~= changes@.take(k as int));
                }
                assert(changes@.take(changes@.len() as int) =~= changes@);
            },
            Command::Reorder { id, before_index, .. } => {
                document.move_to_index(*id, *before_index);
            },
            Command::SetCanvasSize { before, .. } => {
                document.canvas_width = before.0;
                document.canvas_height = before.1;
            },
            Command::SetBackground { before, .. } => {
                document.background = before.clone();
            },
            Command::Batch(commands) => {
                let n = commands.len();
                let mut k = n;
                #[verifier::loop_isolation(false)]
                while k > 0
                    invariant
                        k <= n == commands@.len(),
                        document@ == unapply_all(commands@.subrange(k as int, n as int), start),
                        document.assets == old(document).assets,
                    decreases k,
                {
                    k -= 1;
                    proof {
                        assert(decreases_to!(*commands => commands[k as int]));
                    }
                    commands[k].unapply(document);
                    assert(commands@.subrange(k as int, n as int).drop_first() =~= commands@.subrange(k + 1, n as int));
                }
                assert(commands@.subrange(0, n as int) =~= commands@);
            },
        }
    }

    /// Ids this command touches, so the caller can update the selection to
    /// follow an undo/redo.
    pub fn affected_ids(&self) -> (ids: Vec<ObjectId>)
        ensures
            ids@ == self.affected(),
        decreases self,
    {
        match self {
            Command::CreateObject { object } => vec![object.id],
            Command::DeleteObjects { removed } => {
                let mut ids: Vec<ObjectId> = Vec::new();
                for k in 0..removed.len()
                    invariant
                        ids@ == removed@.take(k as int).map_values(|e: (usize, DesignObject<F>)| e.1.id),
                {
                    ids.push(removed[k].1.id);
                    assert(removed@.take(k + 1).map_values(|e: (usize, DesignObject<F>)| e.1.id) =~= ids@);
                }
                assert(removed@.take(removed@.len() as int) =~= removed@);
                ids
            },
            Command::SetGeometry { id, .. } => vec![*id],
            Command::SetTextProperties { id, .. } => vec![*id],
            Command::SetImageProperties { id, .. } => vec![*id],
            Command::SetShapeProperties { id, .. } => vec![*id],
            Command::SetLineProperties { id, .. } => vec![*id],
            Command::SetPathProperties { id, .. } => vec![*id],
            Command::SetParent { changes } => {
                let mut ids: Vec<ObjectId> = Vec::new();
                for k in 0..changes.len()
                    invariant
                        ids@ == changes@.take(k as int).map_values(
                            |c: (ObjectId, Option<ObjectId>, Option<ObjectId>)| c.0,
                        ),
                {
                    ids.push(changes[k].0);
                    assert(changes@.take(k + 1).map_values(|c: (ObjectId, Option<ObjectId>, Option<ObjectId>)| c.0) =~= ids@);
                }
                assert(changes@.take(changes@.len() as int) =~= changes@);
                ids
            },
            Command::Reorder { id, .. } => vec![*id],
            Command::SetCanvasSize { .. } => Vec::new(),
            Command::SetBackground { .. } => Vec::new(),
            Command::Batch(commands) => {
                let mut ids: Vec<ObjectId> = Vec::new();
                #[verifier::loop_isolation(false)]
                for k in 0..commands.len()
                    invariant
                        ids@ == affected_all(commands@.take(k as int)),
                {
                    proof {
                        assert(decreases_to!(*commands => commands[k as int]));
                    }
                    let mut more = commands[k].affected_ids();
                    ids.append(&mut more);
                    assert(commands@.take(k + 1).drop_last() =~= commands@.take(k as int));
                }
                assert(commands@.take(commands@.len() as int) =~= commands@);
                ids
            },
        }
    }
}


/// The positions recorded by the entries `lo..hi` of `removed`.
pub open spec fn positions<F>(removed: Seq<(usize, DesignObject<F>)>, lo: int, hi: int) -> Set<int> {
    Set::new(|j: int| exists|a: int| lo <= a < hi && removed[a].0 == j)
}

/// Removing the first `k` recorded objects by id leaves exactly the objects
/// at the other positions.
proof fn lemma_remove_each_keeps<F>(s: Seq<DesignObject<F>>, r: Seq<(usize, DesignObject<F>)>, k: int)
    requires
        ids_unique(s),
        removal_matches(s, r),
        0 <= k <= r.len(),
    ensures
        remove_each(s, r.take(k)) == keep(s, positions(r, 0, k)),
    decreases k,
{
    if k == 0 {
        lemma_keep_nothing(s);
        assert(positions(r, 0, 0) =~= Set::<int>::empty());
    } else {
        lemma_remove_each_keeps(s, r, k - 1);
        assert(r.take(k).drop_last() =~= r.take(k - 1));
        let gone = positions(r, 0, k - 1);
        let i = r[k - 1].0 as int;
        assert(r[k - 1] == r[k - 1]);
        assert(!gone.contains(i)) by {
            if gone.contains(i) {
                let a = choose|a: int| 0 <= a < k - 1 && r[a].0 == i;
                assert(r[a].0 < r[k - 1].0);
            }
        }
        lemma_keep_unique(s, gone);
        lemma_keep_index(s, gone, i);
        lemma_kept_below_mono(gone, 0, i);
        lemma_find_unique(keep(s, gone), kept_below(gone, i));
        lemma_keep_remove(s, gone, i);
        assert(gone.insert(i) =~= positions(r, 0, k));
    }
}

/// Putting the first `k` recorded objects back at their indices, starting
/// from the kept objects, restores all but the later positions.
proof fn lemma_insert_each_restores<F>(s: Seq<DesignObject<F>>, r: Seq<(usize, DesignObject<F>)>, k: int)
    requires
        removal_matches(s, r),
        0 <= k <= r.len(),
    ensures
        insert_each(keep(s, positions(r, 0, r.len() as int)), r.take(k)) == keep(s, positions(r, k, r.len() as int)),
    decreases k,
{
    let n = r.len() as int;
    if k == 0 {
        assert(r.take(0).len() == 0);
    } else {
        lemma_insert_each_restores(s, r, k - 1);
        assert(r.take(k).drop_last() =~= r.take(k - 1));
        let later = positions(r, k, n);
        let i = r[k - 1].0 as int;
        assert(r[k - 1] == r[k - 1]);
        assert forall|p: int| later.contains(p) implies p > i by {
            let a = choose|a: int| k <= a < n && r[a].0 == p;
            assert(r[k - 1].0 < r[a].0);
        }
        assert(!later.contains(i));
        lemma_kept_below_none_gone(later, i);
        lemma_keep_remove(s, later, i);
        lemma_keep_index(s, later, i);
        assert(later.insert(i) =~= positions(r, k - 1, n));
        let x = keep(s, later);
        assert(x.remove(i).insert(i, s[i]) =~= x);
    }
}

/// Deleting recorded objects and putting them back gives the objects back.
pub proof fn lemma_delete_then_restore<F>(s: Seq<DesignObject<F>>, r: Seq<(usize, DesignObject<F>)>)
    requires
        ids_unique(s),
        removal_matches(s, r),
    ensures
        insert_each(remove_each(s, r), r) == s,
        ids_unique(remove_each(s, r)),
        drawn_from(remove_each(s, r), s),
{
    let n = r.len() as int;
    lemma_remove_each_keeps(s, r, n);
    lemma_insert_each_restores(s, r, n);
    assert(r.take(n) =~= r);
    assert(positions(r, n, n) =~= Set::<int>::empty());
    lemma_keep_nothing(s);
    lemma_keep_unique(s, positions(r, 0, n));
}

/// The group an object has after the first `k` changes of `changes`.
pub open spec fn parent_after<F>(
    o: DesignObject<F>,
    changes: Seq<(ObjectId, Option<ObjectId>, Option<ObjectId>)>,
    k: int,
    undo: bool,
) -> Option<ObjectId> {
    if exists|a: int| 0 <= a < k && changes[a].0 == o.id {
        let a = choose|a: int| 0 <= a < k && changes[a].0 == o.id;
        if undo { changes[a].1 } else { changes[a].2 }
    } else {
        o.parent_id
    }
}

/// After the first `k` changes, each object has only its group changed, to
/// the value its own change names.
pub proof fn lemma_reparent_each<F>(
    s: Seq<DesignObject<F>>,
    changes: Seq<(ObjectId, Option<ObjectId>, Option<ObjectId>)>,
    undo: bool,
    k: int,
)
    requires
        ids_unique(s),
        forall|a: int, b: int| 0 <= a < changes.len() && 0 <= b < changes.len() && a != b ==> (#[trigger] changes[a]).0 != (#[trigger] changes[b]).0,
        0 <= k <= changes.len(),
    ensures
        reparent_each(s, changes.take(k), undo).len() == s.len(),
        forall|j: int| 0 <= j < s.len() ==> #[trigger] reparent_each(s, changes.take(k), undo)[j] == (DesignObject {
            parent_id: parent_after(s[j], changes, k, undo),
            ..s[j]
        }),
    decreases k,
{
    if k == 0 {
        assert forall|j: int| 0 <= j < s.len() implies #[trigger] reparent_each(s, changes.take(k), undo)[j] == (DesignObject {
            parent_id: parent_after(s[j], changes, k, undo),
            ..s[j]
        }) by {}
    } else {
        lemma_reparent_each(s, changes, undo, k - 1);
        assert(changes.take(k).drop_last() =~= changes.take(k - 1));
        let t = reparent_each(s, changes.take(k - 1), undo);
        let c = changes[k - 1];
        let value = if undo { c.1 } else { c.2 };
        assert(ids_unique(t)) by {
            assert forall|a: int, b: int| 0 <= a < t.len() && 0 <= b < t.len() && a != b implies t[a].id != t[b].id by {
                assert(t[a].id == s[a].id);
                assert(t[b].id == s[b].id);
            }
        }
        let u = reparent_each(s, changes.take(k), undo);
        assert(u == with_parent(t, c.0, value));
        assert forall|j: int| 0 <= j < s.len() implies #[trigger] u[j] == (DesignObject {
            parent_id: parent_after(s[j], changes, k, undo),
            ..s[j]
        }) by {
            assert(t[j] == (DesignObject { parent_id: parent_after(s[j], changes, k - 1, undo), ..s[j] }));
            if s[j].id == c.0 {
                lemma_find_unique(t, j);
                assert(changes[k - 1] == c);
                assert forall|a: int| 0 <= a < k && changes[a].0 == s[j].id implies a == k - 1 by {
                    if a != k - 1 {
                        assert(changes[a].0 != changes[k - 1].0);
                    }
                }
            } else {
                match find_index(t, c.0) {
                    Some(i) => {
                        assert(t[i].id == c.0);
                        assert(i != j);
                    },
                    None => {},
                }
                assert forall|a: int| 0 <= a < k && changes[a].0 == s[j].id implies a < k - 1 by {}
                if exists|a: int| 0 <= a < k && changes[a].0 == s[j].id {
                    let a = choose|a: int| 0 <= a < k && changes[a].0 == s[j].id;
                    assert(0 <= a < k - 1 && changes[a].0 == s[j].id);
                    let b = choose|b: int| 0 <= b < k - 1 && changes[b].0 == s[j].id;
                    if a != b {
                        assert(changes[a].0 != changes[b].0);
                    }
                }
            }
        }
    }
}

/// Regrouping objects and then restoring their recorded groups gives the
/// objects back.
pub proof fn lemma_reparent_then_restore<F>(
    s: Seq<DesignObject<F>>,
    changes: Seq<(ObjectId, Option<ObjectId>, Option<ObjectId>)>,
)
    requires
        ids_unique(s),
        parent_changes_match(s, changes),
    ensures
        reparent_each(reparent_each(s, changes, false), changes, true) == s,
        ids_unique(reparent_each(s, changes, false)),
        forall|j: int| 0 <= j < s.len() ==> (#[trigger] reparent_each(s, changes, false)[j]).id == s[j].id,
        reparent_each(s, changes, false).len() == s.len(),
{
    let n = changes.len() as int;
    assert(changes.take(n) =~= changes);
    lemma_reparent_each(s, changes, false, n);
    let t = reparent_each(s, changes, false);
    assert(ids_unique(t)) by {
        assert forall|a: int, b: int| 0 <= a < t.len() && 0 <= b < t.len() && a != b implies t[a].id != t[b].id by {
            assert(t[a].id == s[a].id);
            assert(t[b].id == s[b].id);
        }
    }
    lemma_reparent_each(t, changes, true, n);
    let u = reparent_each(t, changes, true);
    assert forall|j: int| 0 <= j < s.len() implies u[j] == s[j] by {
        assert(t[j] == (DesignObject { parent_id: parent_after(s[j], changes, n, false), ..s[j] }));
        assert(u[j] == (DesignObject { parent_id: parent_after(t[j], changes, n, true), ..t[j] }));
        if exists|a: int| 0 <= a < n && changes[a].0 == s[j].id {
            let a = choose|a: int| 0 <= a < n && changes[a].0 == s[j].id;
            assert(changes[a] == changes[a]);
            lemma_find_unique(s, j);
        }
    }
    assert(u =~= s);
}


proof fn lemma_unapply_all_snoc<F>(commands: Seq<Command<F>>, c: Command<F>, x: DocumentModel<F>)
    ensures
        unapply_all(commands.push(c), x) == unapply_all(commands, c.unapplied(x)),
    decreases commands.len(),
{
    let longer = commands.push(c);
    if commands.len() == 0 {
        assert(longer.drop_first() =~= Seq::<Command<F>>::empty());
        assert(unapply_all(longer.drop_first(), x) == x);
        assert(longer[0] == c);
    } else {
        assert(longer.drop_first() =~= commands.drop_first().push(c));
        lemma_unapply_all_snoc(commands.drop_first(), c, x);
        assert(longer[0] == commands[0]);
    }
}

/// Ids bounded by the counter stay bounded when every object comes from a
/// well-formed document.
proof fn lemma_well_formed_from<F>(d: DocumentModel<F>, objects: Seq<DesignObject<F>>)
    requires
        d.well_formed(),
        ids_unique(objects),
        drawn_from(objects, d.objects),
    ensures
        (DocumentModel { objects, ..d }).well_formed(),
{
    assert forall|i: int| 0 <= i < objects.len() implies #[trigger] objects[i].id <= d.next_id by {
        assert(d.objects.contains(objects[i]));
        let k = choose|k: int| 0 <= k < d.objects.len() && d.objects[k] == objects[i];
        assert(d.objects[k].id <= d.next_id);
    }
}

/// Ids bounded by the counter stay bounded when every position keeps its id.
pub proof fn lemma_well_formed_same_ids<F>(d: DocumentModel<F>, objects: Seq<DesignObject<F>>)
    requires
        d.well_formed(),
        objects.len() == d.objects.len(),
        forall|j: int| 0 <= j < d.objects.len() ==> (#[trigger] objects[j]).id == d.objects[j].id,
    ensures
        (DocumentModel { objects, ..d }).well_formed(),
{
    assert forall|a: int, b: int| 0 <= a < objects.len() && 0 <= b < objects.len() && a != b implies objects[a].id != objects[b].id by {
        assert(objects[a].id == d.objects[a].id);
        assert(objects[b].id == d.objects[b].id);
    }
    assert forall|i: int| 0 <= i < objects.len() implies #[trigger] objects[i].id <= d.next_id by {
        assert(objects[i].id == d.objects[i].id);
    }
}

/// Changing the kind of the object `id` of a document with unique ids
/// leaves it where it was, with the new kind.
pub proof fn lemma_shape_found_again<F>(s: Seq<DesignObject<F>>, id: ObjectId, kind: ObjectKind<F>)
    requires
        ids_unique(s),
        find_index(s, id) is Some,
    ensures
        ({
            let i = find_index(s, id)->0;
            let t = with_kind(s, id, kind);
            &&& find_index(t, id) == Some(i)
            &&& t[i].kind == kind
        }),
{
    let i = find_index(s, id)->0;
    let f = |o: DesignObject<F>| DesignObject { kind, ..o };
    crate::object_seq::lemma_find_some(s, id);
    lemma_with_object_ids(s, id, f);
    let t = with_kind(s, id, kind);
    assert(ids_unique(t)) by {
        assert forall|a: int, b: int| 0 <= a < t.len() && 0 <= b < t.len() && a != b implies t[a].id != t[b].id by {
            assert(t[a].id == s[a].id);
            assert(t[b].id == s[b].id);
        }
    }
    crate::model::lemma_find_unique(t, i);
}

/// Undoing a command right after applying it, at a state it is valid at,
/// gives that state back; and applying it keeps the document well formed.
pub proof fn lemma_undo_inverts<F>(c: Command<F>, d: DocumentModel<F>)
    requires
        d.well_formed(),
        c.valid_at(d),
    ensures
        c.unapplied(c.applied(d)) == d,
        c.applied(d).well_formed(),
    decreases c,
{
    let s = d.objects;
    match c {
        Command::CreateObject { object } => {
            lemma_push_then_without(s, object);
            let t = s.push(object);
            assert forall|i: int| 0 <= i < t.len() implies #[trigger] t[i].id <= d.next_id by {
                if i < s.len() {
                    assert(t[i] == s[i]);
                }
            }
        },
        Command::DeleteObjects { removed } => {
            lemma_delete_then_restore(s, removed@);
            lemma_well_formed_from(d, remove_each(s, removed@));
        },
        Command::SetGeometry { id, before, after } => {
            let f = |o: DesignObject<F>| DesignObject { geometry: after, ..o };
            let g = |o: DesignObject<F>| DesignObject { geometry: before, ..o };
            lemma_with_object_inverse(s, id, f, g);
            lemma_with_object_ids(s, id, f);
            lemma_well_formed_same_ids(d, with_object(s, id, f));
        },
        Command::SetTextProperties { id, before, after } => {
            let f = |o: DesignObject<F>| DesignObject { kind: ObjectKind::Text(after), ..o };
            let g = |o: DesignObject<F>| DesignObject { kind: ObjectKind::Text(before), ..o };
            lemma_with_object_inverse(s, id, f, g);
            lemma_with_object_ids(s, id, f);
            lemma_well_formed_same_ids(d, with_object(s, id, f));
        },
        Command::SetImageProperties { id, before, after } => {
            let f = |o: DesignObject<F>| DesignObject { kind: ObjectKind::Image(after), ..o };
            let g = |o: DesignObject<F>| DesignObject { kind: ObjectKind::Image(before), ..o };
            lemma_with_object_inverse(s, id, f, g);
            lemma_with_object_ids(s, id, f);
            lemma_well_formed_same_ids(d, with_object(s, id, f));
        },
        Command::SetLineProperties { id, before, after } => {
            let f = |o: DesignObject<F>| DesignObject { kind: ObjectKind::Line(after), ..o };
            let g = |o: DesignObject<F>| DesignObject { kind: ObjectKind::Line(before), ..o };
            lemma_with_object_inverse(s, id, f, g);
            lemma_with_object_ids(s, id, f);
            lemma_well_formed_same_ids(d, with_object(s, id, f));
        },
        Command::SetPathProperties { id, before, after } => {
            let f = |o: DesignObject<F>| DesignObject { kind: ObjectKind::Path(after), ..o };
            let g = |o: DesignObject<F>| DesignObject { kind: ObjectKind::Path(before), ..o };
            lemma_with_object_inverse(s, id, f, g);
            lemma_with_object_ids(s, id, f);
            lemma_well_formed_same_ids(d, with_object(s, id, f));
        },
        Command::SetShapeProperties { id, before, after } => {
            match find_index(s, id) {
                Some(i) => {
                    if s[i].kind is Rectangle {
                        let f = |o: DesignObject<F>| DesignObject { kind: ObjectKind::Rectangle(after), ..o };
                        let g = |o: DesignObject<F>| DesignObject { kind: ObjectKind::Rectangle(before), ..o };
                        lemma_with_object_inverse(s, id, f, g);
                        lemma_with_object_ids(s, id, f);
                        lemma_well_formed_same_ids(d, with_object(s, id, f));
                        lemma_shape_found_again(s, id, ObjectKind::Rectangle(after));
                    } else {
                        let f = |o: DesignObject<F>| DesignObject { kind: ObjectKind::Ellipse(after), ..o };
                        let g = |o: DesignObject<F>| DesignObject { kind: ObjectKind::Ellipse(before), ..o };
                        lemma_with_object_inverse(s, id, f, g);
                        lemma_with_object_ids(s, id, f);
                        lemma_well_formed_same_ids(d, with_object(s, id, f));
                        lemma_shape_found_again(s, id, ObjectKind::Ellipse(after));
                    }
                },
                None => {},
            }
        },
        Command::SetParent { changes } => {
            lemma_reparent_then_restore(s, changes@);
            lemma_well_formed_same_ids(d, reparent_each(s, changes@, false));
        },
        Command::Reorder { id, before_index, after_index } => {
            match find_index(s, id) {
                Some(i) => {
                    lemma_move_back(s, id, before_index as int, after_index as int);
                    lemma_well_formed_from(d, moved(s, id, after_index as int));
                },
                None => {},
            }
        },
        Command::SetCanvasSize { .. } => {},
        Command::SetBackground { .. } => {},
        Command::Batch(commands) => {
            assert(decreases_to!(c => commands));
            lemma_undo_inverts_all(commands@, d);
        },
    }
}

/// The batch form of `lemma_undo_inverts`.
pub proof fn lemma_undo_inverts_all<F>(commands: Seq<Command<F>>, d: DocumentModel<F>)
    requires
        d.well_formed(),
        valid_all(commands, d),
    ensures
        unapply_all(commands, apply_all(commands, d)) == d,
        apply_all(commands, d).well_formed(),
    decreases commands,
{
    if commands.len() > 0 {
        let init = commands.drop_last();
        let c = commands.last();
        lemma_undo_inverts_all(init, d);
        let mid = apply_all(init, d);
        lemma_undo_inverts(c, mid);
        lemma_unapply_all_snoc(init, c, c.applied(mid));
        assert(init.push(c) =~= commands);
    }
}


/// A single command stays itself instead of becoming a one-element batch;
/// no commands give nothing to record.
pub fn batch<F>(commands: Vec<Command<F>>) -> (command: Option<Command<F>>)
    ensures
        commands@.len() == 0 ==> command is None,
        commands@.len() == 1 ==> command == Some(commands@[0]),
        commands@.len() > 1 ==> command == Some(Command::Batch(commands)),
{
    if commands.len() == 0 {
        None
    } else if commands.len() == 1 {
        let mut commands = commands;
        commands.pop()
    } else {
        Some(Command::Batch(commands))
    }
}

pub struct History<F> {
    undo_stack: Vec<Command<F>>,
    redo_stack: Vec<Command<F>>,
}

/// The undo and redo stacks, top last.
pub ghost struct HistoryModel<F> {
    pub undo: Seq<Command<F>>,
    pub redo: Seq<Command<F>>,
}

impl<F> View for History<F> {
    type V = HistoryModel<F>;

    closed spec fn view(&self) -> HistoryModel<F> {
        HistoryModel { undo: self.undo_stack@, redo: self.redo_stack@ }
    }
}

impl<F: Copy> Default for History<F> {
    /// Empty stacks.
    fn default() -> (history: Self)
        ensures
            history@.undo.len() == 0,
            history@.redo.len() == 0,
    {
        History::new()
    }
}

impl<F: Copy> History<F> {
    pub fn new() -> (history: Self)
        ensures
            history@.undo.len() == 0,
            history@.redo.len() == 0,
    {
        History { undo_stack: Vec::new(), redo_stack: Vec::new() }
    }

    pub fn can_undo(&self) -> (b: bool)
        ensures
            b == (self@.undo.len() > 0),
    {
        !self.undo_stack.is_empty()
    }

    pub fn can_redo(&self) -> (b: bool)
        ensures
            b == (self@.redo.len() > 0),
    {
        !self.redo_stack.is_empty()
    }

    /// Changes by exactly one on every `record`, `undo` and `redo`, so equal
    /// counts before and after an action mean nothing was committed.
    pub fn undo_count(&self) -> (n: usize)
        ensures
            n == self@.undo.len(),
    {
        self.undo_stack.len()
    }

    /// Records a step the document has just taken; the redo stack is
    /// discarded.
    pub fn record(&mut self, command: Command<F>)
        ensures
            final(self)@.undo == old(self)@.undo.push(command),
            final(self)@.redo.len() == 0,
    {
        self.undo_stack.push(command);
        self.redo_stack.clear();
    }

    /// Undoes the latest step on `document`, moves it to the redo stack and
    /// returns the ids it touched; `None` (and no change) when there is
    /// nothing to undo.
    pub fn undo(&mut self, document: &mut DesignDocument<F>) -> (ids: Option<Vec<ObjectId>>)
        ensures
            old(self)@.undo.len() == 0 ==> {
                &&& ids is None
                &&& final(self)@ == old(self)@
                &&& final(document)@ == old(document)@
            },
            old(self)@.undo.len() > 0 ==> {
                let top = old(self)@.undo.last();
                &&& ids matches Some(v) && v@ == top.affected()
                &&& final(self)@.undo == old(self)@.undo.drop_last()
                &&& final(self)@.redo == old(self)@.redo.push(top)
                &&& final(document)@ == top.unapplied(old(document)@)
            },
            final(document).assets == old(document).assets,
    {
        match self.undo_stack.pop() {
            Some(command) => {
                command.unapply(document);
                let ids = command.affected_ids();
                self.redo_stack.push(command);
                Some(ids)
            },
            None => None,
        }
    }

    /// Re-applies the latest undone step on `document`, moves it back to the
    /// undo stack and returns the ids it touched; `None` (and no change) when
    /// there is nothing to redo.
    pub fn redo(&mut self, document: &mut DesignDocument<F>) -> (ids: Option<Vec<ObjectId>>)
        ensures
            old(self)@.redo.len() == 0 ==> {
                &&& ids is None
                &&& final(self)@ == old(self)@
                &&& final(document)@ == old(document)@
            },
            old(self)@.redo.len() > 0 ==> {
                let top = old(self)@.redo.last();
                &&& ids matches Some(v) && v@ == top.affected()
                &&& final(self)@.redo == old(self)@.redo.drop_last()
                &&& final(self)@.undo == old(self)@.undo.push(top)
                &&& final(document)@ == top.applied(old(document)@)
            },
            final(document).assets == old(document).assets,
    {
        match self.redo_stack.pop() {
            Some(command) => {
                command.apply(document);
                let ids = command.affected_ids();
                self.undo_stack.push(command);
                Some(ids)
            },
            None => None,
        }
    }
}

/// Undoing the commands of `undo`, last first, starting from `d`, walks back
/// through well-formed states at which each command is valid.
pub open spec fn undo_chain_ok<F>(undo: Seq<Command<F>>, d: DocumentModel<F>) -> bool
    decreases undo.len(),
{
    if undo.len() == 0 {
        true
    } else {
        let c = undo.last();
        let prev = c.unapplied(d);
        &&& prev.well_formed()
        &&& c.valid_at(prev)
        &&& c.applied(prev) == d
        &&& undo_chain_ok(undo.drop_last(), prev)
    }
}

/// Redoing the commands of `redo`, last first, starting from `d`, applies
/// each at a state it is valid at.
pub open spec fn redo_chain_ok<F>(redo: Seq<Command<F>>, d: DocumentModel<F>) -> bool
    decreases redo.len(),
{
    if redo.len() == 0 {
        true
    } else {
        let c = redo.last();
        c.valid_at(d) && redo_chain_ok(redo.drop_last(), c.applied(d))
    }
}

/// The history describes how `d` was reached and where redo would lead.
pub open spec fn consistent<F>(h: HistoryModel<F>, d: DocumentModel<F>) -> bool {
    &&& d.well_formed()
    &&& undo_chain_ok(h.undo, d)
    &&& redo_chain_ok(h.redo, d)
}

/// Recording a step that is valid at the current document, right after
/// applying it, keeps the history consistent.
pub proof fn lemma_record_consistent<F>(h: HistoryModel<F>, c: Command<F>, d: DocumentModel<F>)
    requires
        d.well_formed(),
        undo_chain_ok(h.undo, d),
        c.valid_at(d),
    ensures
        consistent(HistoryModel { undo: h.undo.push(c), redo: Seq::empty() }, c.applied(d)),
{
    lemma_undo_inverts(c, d);
    assert(h.undo.push(c).drop_last() =~= h.undo);
}

/// A single command, applied (and checked) as a sequence of one.
pub proof fn lemma_apply_all_single<F>(c: Command<F>, d: DocumentModel<F>)
    ensures
        apply_all(seq![c], d) == c.applied(d),
        valid_all(seq![c], d) == c.valid_at(d),
{
    let s = seq![c];
    assert(s.drop_last() =~= Seq::<Command<F>>::empty());
    assert(s.last() == c);
    assert(apply_all(s.drop_last(), d) == d);
    assert(valid_all(s.drop_last(), d));
}

/// Applying (and checking) `s` then `t` is applying (and checking) `s + t`.
pub proof fn lemma_apply_all_concat<F>(s: Seq<Command<F>>, t: Seq<Command<F>>, d: DocumentModel<F>)
    ensures
        apply_all(s + t, d) == apply_all(t, apply_all(s, d)),
        valid_all(s + t, d) == (valid_all(s, d) && valid_all(t, apply_all(s, d))),
    decreases t.len(),
{
    if t.len() == 0 {
        assert(s + t =~= s);
    } else {
        lemma_apply_all_concat(s, t.drop_last(), d);
        assert((s + t).drop_last() =~= s + t.drop_last());
        assert((s + t).last() == t.last());
    }
}

/// Recording, as one step (see `batch`), commands that were applied in
/// order from the current document, each valid where it came, keeps the
/// history consistent.
pub proof fn lemma_record_batch_consistent<F>(h: HistoryModel<F>, commands: Seq<Command<F>>, c: Command<F>, d: DocumentModel<F>)
    requires
        d.well_formed(),
        undo_chain_ok(h.undo, d),
        valid_all(commands, d),
        commands.len() > 0,
        commands.len() == 1 ==> c == commands[0],
        commands.len() > 1 ==> (c matches Command::Batch(v) && v@ == commands),
    ensures
        consistent(HistoryModel { undo: h.undo.push(c), redo: Seq::empty() }, apply_all(commands, d)),
{
    if commands.len() == 1 {
        assert(commands.drop_last() =~= Seq::<Command<F>>::empty());
        assert(commands.last() == commands[0]);
    }
    lemma_record_consistent(h, c, d);
}

/// Undo keeps the history consistent.
pub proof fn lemma_undo_consistent<F>(h: HistoryModel<F>, d: DocumentModel<F>)
    requires
        consistent(h, d),
        h.undo.len() > 0,
    ensures
        consistent(
            HistoryModel { undo: h.undo.drop_last(), redo: h.redo.push(h.undo.last()) },
            h.undo.last().unapplied(d),
        ),
{
    assert(h.redo.push(h.undo.last()).drop_last() =~= h.redo);
}

/// Redo keeps the history consistent.
pub proof fn lemma_redo_consistent<F>(h: HistoryModel<F>, d: DocumentModel<F>)
    requires
        consistent(h, d),
        h.redo.len() > 0,
    ensures
        consistent(
            HistoryModel { undo: h.undo.push(h.redo.last()), redo: h.redo.drop_last() },
            h.redo.last().applied(d),
        ),
{
    lemma_undo_inverts(h.redo.last(), d);
    assert(h.undo.push(h.redo.last()).drop_last() =~= h.undo);
}

/// Undo followed by redo returns to the same document and the same stacks.
pub proof fn lemma_undo_then_redo<F>(h: HistoryModel<F>, d: DocumentModel<F>)
    requires
        consistent(h, d),
        h.undo.len() > 0,
    ensures
        ({
            let top = h.undo.last();
            let after_undo = HistoryModel { undo: h.undo.drop_last(), redo: h.redo.push(top) };
            &&& after_undo.redo.last() == top
            &&& top.applied(top.unapplied(d)) == d
            &&& (HistoryModel { undo: after_undo.undo.push(top), redo: after_undo.redo.drop_last() }) == h
        }),
{
    let top = h.undo.last();
    assert(h.undo.drop_last().push(top) =~= h.undo);
    assert(h.redo.push(top).drop_last() =~= h.redo);
}

/// Redo followed by undo returns to the same document and the same stacks.
pub proof fn lemma_redo_then_undo<F>(h: HistoryModel<F>, d: DocumentModel<F>)
    requires
        consistent(h, d),
        h.redo.len() > 0,
    ensures
        ({
            let top = h.redo.last();
            let after_redo = HistoryModel { undo: h.undo.push(top), redo: h.redo.drop_last() };
            &&& after_redo.undo.last() == top
            &&& top.unapplied(top.applied(d)) == d
            &&& (HistoryModel { undo: after_redo.undo.drop_last(), redo: after_redo.redo.push(top) }) == h
        }),
{
    let top = h.redo.last();
    lemma_undo_inverts(top, d);
    assert(h.undo.push(top).drop_last() =~= h.undo);
    assert(h.redo.drop_last().push(top) =~= h.redo);
}


/// `d` with its id counter at `n`.
pub open spec fn with_counter<F>(d: DocumentModel<F>, n: ObjectId) -> DocumentModel<F> {
    DocumentModel { next_id: n, ..d }
}

/// Commands never touch the id counter, and a raised counter keeps every
/// command valid.
pub proof fn lemma_counter_independent<F>(c: Command<F>, d: DocumentModel<F>, n: ObjectId)
    ensures
        c.applied(d).next_id == d.next_id,
        c.unapplied(d).next_id == d.next_id,
        c.applied(with_counter(d, n)) == with_counter(c.applied(d), n),
        c.unapplied(with_counter(d, n)) == with_counter(c.unapplied(d), n),
        c.valid_at(d) && n >= d.next_id ==> c.valid_at(with_counter(d, n)),
    decreases c,
{
    match c {
        Command::Batch(commands) => {
            assert(decreases_to!(c => commands));
            lemma_counter_independent_all(commands@, d, n);
        },
        _ => {},
    }
}

pub proof fn lemma_counter_independent_all<F>(commands: Seq<Command<F>>, d: DocumentModel<F>, n: ObjectId)
    ensures
        apply_all(commands, d).next_id == d.next_id,
        unapply_all(commands, d).next_id == d.next_id,
        apply_all(commands, with_counter(d, n)) == with_counter(apply_all(commands, d), n),
        unapply_all(commands, with_counter(d, n)) == with_counter(unapply_all(commands, d), n),
        valid_all(commands, d) && n >= d.next_id ==> valid_all(commands, with_counter(d, n)),
    decreases commands,
{
    if commands.len() > 0 {
        lemma_counter_independent_all(commands.drop_last(), d, n);
        lemma_counter_independent(commands.last(), apply_all(commands.drop_last(), d), n);
        lemma_counter_independent_all(commands.drop_first(), d, n);
        lemma_counter_independent(commands[0], unapply_all(commands.drop_first(), d), n);
    }
}

/// Raising the id counter keeps the undo stack consistent.
pub proof fn lemma_undo_chain_counter<F>(undo: Seq<Command<F>>, d: DocumentModel<F>, n: ObjectId)
    requires
        undo_chain_ok(undo, d),
        n >= d.next_id,
    ensures
        undo_chain_ok(undo, with_counter(d, n)),
    decreases undo.len(),
{
    if undo.len() > 0 {
        let c = undo.last();
        let prev = c.unapplied(d);
        lemma_counter_independent(c, prev, n);
        lemma_counter_independent(c, d, n);
        lemma_undo_chain_counter(undo.drop_last(), prev, n);
        assert forall|i: int| 0 <= i < prev.objects.len() implies #[trigger] prev.objects[i].id <= n by {
            assert(prev.objects[i].id <= prev.next_id);
        }
    }
}

} // verus!
