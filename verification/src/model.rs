//! Document model for the design canvas.
//!
//! Framework-agnostic: nothing here knows about SVG or rendering. The
//! renderer and the editor state read and write this model.
//!
//! Coordinates, sizes and opacity are of the scalar type `F` (a float in
//! the application). The document logic never computes with them: it only
//! stores, moves and restores them, so it is written once for every `F`.

use vstd::prelude::*;
use vstd::string::StringExecFns;

use crate::assets::{AssetId, AssetManager};
use crate::color::Color;
use crate::text::push_decimal;

verus! {

pub type ObjectId = u64;

/// Where an object sits on the canvas and how it is drawn.
#[derive(Clone, Copy, Debug, PartialEq)]
pub struct Geometry<F> {
    pub x: F,
    pub y: F,
    pub width: F,
    pub height: F,
    pub rotation: F,
    pub opacity: F,
}

/// How an image fills its object's box.
#[derive(Clone, Copy, Debug, PartialEq, Eq, Structural)]
pub enum ImageFit {
    /// Stretched to the box.
    Fill,
    /// Scaled to fit inside the box, aspect kept.
    Fit,
    /// Scaled to cover the box, aspect kept, the overflow cut off.
    Crop,
}

impl Default for ImageFit {
    /// Fill.
    fn default() -> (fit: Self)
        ensures
            fit == ImageFit::Fill,
    {
        ImageFit::Fill
    }
}

/// What an image object shows: an asset of the document's registry (never
/// pixel data itself) and how it fills the box.
#[derive(Clone, Copy, Debug, PartialEq, Eq, Structural)]
pub struct ImageProperties {
    pub asset_id: AssetId,
    pub fit: ImageFit,
}

/// A point of an object's box, as fractions of its width and height
/// (0 at the left or top edge, 1 at the right or bottom edge), so that the
/// shape scales with the box.
#[derive(Clone, Copy, Debug, PartialEq)]
pub struct PathPoint<F> {
    pub x: F,
    pub y: F,
}

/// The outline of a rectangle or an ellipse.
#[derive(Clone, Copy, Debug, PartialEq)]
pub struct Stroke<F> {
    pub enabled: bool,
    pub color: Color<F>,
    pub width: F,
}

/// How a rectangle or an ellipse is painted.
#[derive(Clone, Copy, Debug, PartialEq)]
pub struct ShapeProperties<F> {
    pub fill: Color<F>,
    pub stroke: Stroke<F>,
}

/// A straight line from `start` to `end`.
#[derive(Clone, Copy, Debug, PartialEq)]
pub struct LineProperties<F> {
    pub start: PathPoint<F>,
    pub end: PathPoint<F>,
    pub stroke_color: Color<F>,
    pub stroke_width: F,
}

/// A text object's typeface.
#[derive(Clone, Copy, Debug, PartialEq, Eq, Structural)]
pub enum FontFamily {
    Inter,
    Arial,
    Helvetica,
    SystemSansSerif,
    Georgia,
    TimesNewRoman,
    SystemSerif,
    CourierNew,
}

#[derive(Clone, Copy, Debug, PartialEq, Eq, Structural)]
pub enum FontWeight {
    Regular,
    Bold,
}

#[derive(Clone, Copy, Debug, PartialEq, Eq, Structural)]
pub enum FontStyle {
    Regular,
    Italic,
}

#[derive(Clone, Copy, Debug, PartialEq, Eq, Structural)]
pub enum TextDecoration {
    /// No line.
    Plain,
    Underline,
    Strikethrough,
}

#[derive(Clone, Copy, Debug, PartialEq, Eq, Structural)]
pub enum TextAlign {
    Left,
    Center,
    Right,
}

/// Whether a text object's box follows its content (`Auto`) or wraps the
/// content to the box (`Fixed`).
#[derive(Clone, Copy, Debug, PartialEq, Eq, Structural)]
pub enum TextSizeMode {
    Auto,
    Fixed,
}

/// A text object's content and how it is set.
#[derive(Debug, PartialEq)]
pub struct TextProperties<F> {
    pub content: String,
    pub font_family: FontFamily,
    pub font_size: F,
    pub font_weight: FontWeight,
    pub font_style: FontStyle,
    pub letter_spacing: F,
    pub line_height: F,
    pub text_decoration: TextDecoration,
    pub fill: Color<F>,
    pub text_align: TextAlign,
    pub size_mode: TextSizeMode,
}

impl<F: Copy> Clone for TextProperties<F> {
    fn clone(&self) -> (res: Self)
        ensures
            res == *self,
    {
        TextProperties {
            content: self.content.clone(),
            font_family: self.font_family,
            font_size: self.font_size,
            font_weight: self.font_weight,
            font_style: self.font_style,
            letter_spacing: self.letter_spacing,
            line_height: self.line_height,
            text_decoration: self.text_decoration,
            fill: self.fill,
            text_align: self.text_align,
            size_mode: self.size_mode,
        }
    }
}

/// The points of a freehand stroke, first to last: a list whose copies are
/// exact, so that a stroke can be kept in the undo history.
#[derive(Debug, PartialEq)]
pub enum PointList<F> {
    Empty,
    Point(PathPoint<F>, Box<PointList<F>>),
}

impl<F: Copy> Clone for PointList<F> {
    fn clone(&self) -> (res: Self)
        ensures
            res == *self,
        decreases self,
    {
        match self {
            PointList::Empty => PointList::Empty,
            PointList::Point(p, rest) => PointList::Point(*p, Box::new((**rest).clone())),
        }
    }
}

/// A freehand (pencil) stroke through `points`.
#[derive(Debug, PartialEq)]
pub struct PathProperties<F> {
    pub points: PointList<F>,
    pub stroke_color: Color<F>,
    pub stroke_width: F,
}

impl<F: Copy> Clone for PathProperties<F> {
    fn clone(&self) -> (res: Self)
        ensures
            res == *self,
    {
        PathProperties { points: self.points.clone(), stroke_color: self.stroke_color, stroke_width: self.stroke_width }
    }
}

#[derive(Debug, PartialEq)]
pub enum ObjectKind<F> {
    Rectangle(ShapeProperties<F>),
    Ellipse(ShapeProperties<F>),
    /// A straight line (the Line tool).
    Line(LineProperties<F>),
    /// A freehand stroke (the Pencil tool).
    Path(PathProperties<F>),
    Text(TextProperties<F>),
    ImagePlaceholder,
    /// An imported image.
    Image(ImageProperties),
    /// A group: no shape of its own; its members name it as their parent.
    Group,
}

impl<F> ObjectKind<F> {
    /// The label shown for this kind of object.
    pub open spec fn label(&self) -> Seq<char> {
        match self {
            ObjectKind::Rectangle(..) => "Rectangle"@,
            ObjectKind::Ellipse(..) => "Ellipse"@,
            ObjectKind::Line(..) => "Line"@,
            ObjectKind::Path(..) => "Path"@,
            ObjectKind::Text(..) => "Text"@,
            ObjectKind::ImagePlaceholder => "Image"@,
            ObjectKind::Image(..) => "Image"@,
            ObjectKind::Group => "Group"@,
        }
    }

    /// Whether this is a group.
    pub fn is_group(&self) -> (b: bool)
        ensures
            b == (*self is Group),
    {
        match self {
            ObjectKind::Group => true,
            _ => false,
        }
    }

    pub fn type_label(&self) -> (label: &'static str)
        ensures
            label@ == self.label(),
    {
        match self {
            ObjectKind::Rectangle(..) => "Rectangle",
            ObjectKind::Ellipse(..) => "Ellipse",
            ObjectKind::Line(..) => "Line",
            ObjectKind::Path(..) => "Path",
            ObjectKind::Text(..) => "Text",
            ObjectKind::ImagePlaceholder => "Image",
            ObjectKind::Image(..) => "Image",
            ObjectKind::Group => "Group",
        }
    }
}

impl<F: Copy> Clone for ObjectKind<F> {
    fn clone(&self) -> (res: Self)
        ensures
            res == *self,
    {
        match self {
            ObjectKind::Rectangle(props) => ObjectKind::Rectangle(*props),
            ObjectKind::Ellipse(props) => ObjectKind::Ellipse(*props),
            ObjectKind::Line(props) => ObjectKind::Line(*props),
            ObjectKind::Path(props) => ObjectKind::Path(props.clone()),
            ObjectKind::Text(props) => ObjectKind::Text(props.clone()),
            ObjectKind::ImagePlaceholder => ObjectKind::ImagePlaceholder,
            ObjectKind::Image(props) => ObjectKind::Image(*props),
            ObjectKind::Group => ObjectKind::Group,
        }
    }
}

#[derive(Debug, PartialEq)]
pub struct DesignObject<F> {
    pub id: ObjectId,
    pub name: String,
    pub kind: ObjectKind<F>,
    pub geometry: Geometry<F>,
    /// The group this object belongs to, if any.
    pub parent_id: Option<ObjectId>,
}

impl<F: Copy> Clone for DesignObject<F> {
    fn clone(&self) -> (res: Self)
        ensures
            res == *self,
    {
        DesignObject {
            id: self.id,
            name: self.name.clone(),
            kind: self.kind.clone(),
            geometry: self.geometry,
            parent_id: self.parent_id,
        }
    }
}

/// Whether some object in `objects` has the id `id`.
pub open spec fn contains_id<F>(objects: Seq<DesignObject<F>>, id: ObjectId) -> bool {
    exists|i: int| 0 <= i < objects.len() && objects[i].id == id
}

/// No two objects share an id.
pub open spec fn ids_unique<F>(objects: Seq<DesignObject<F>>) -> bool {
    forall|i: int, j: int|
        0 <= i < objects.len() && 0 <= j < objects.len() && i != j ==> objects[i].id != objects[j].id
}

/// `i` is the first position of an object with id `id`.
pub open spec fn is_first_index<F>(objects: Seq<DesignObject<F>>, id: ObjectId, i: int) -> bool {
    &&& 0 <= i < objects.len()
    &&& objects[i].id == id
    &&& forall|j: int| 0 <= j < i ==> objects[j].id != id
}

/// The first position of an object with id `id`, if there is one.
pub open spec fn find_index<F>(objects: Seq<DesignObject<F>>, id: ObjectId) -> Option<int> {
    if exists|i: int| is_first_index(objects, id, i) {
        Some(choose|i: int| is_first_index(objects, id, i))
    } else {
        None
    }
}

pub proof fn lemma_first_index_unique<F>(objects: Seq<DesignObject<F>>, id: ObjectId, i: int, j: int)
    requires
        is_first_index(objects, id, i),
        is_first_index(objects, id, j),
    ensures
        i == j,
{
}

/// In a document whose ids are unique, the object with a given id is found
/// at its one position.
pub proof fn lemma_find_unique<F>(objects: Seq<DesignObject<F>>, i: int)
    requires
        ids_unique(objects),
        0 <= i < objects.len(),
    ensures
        find_index(objects, objects[i].id) == Some(i),
{
    assert(is_first_index(objects, objects[i].id, i));
    let k = choose|k: int| is_first_index(objects, objects[i].id, k);
    lemma_first_index_unique(objects, objects[i].id, i, k);
}

/// `objects` with the first object whose id is `id` changed by `f`
/// (unchanged if there is none).
pub open spec fn with_object<F>(
    objects: Seq<DesignObject<F>>,
    id: ObjectId,
    f: spec_fn(DesignObject<F>) -> DesignObject<F>,
) -> Seq<DesignObject<F>> {
    match find_index(objects, id) {
        Some(i) => objects.update(i, f(objects[i])),
        None => objects,
    }
}

pub open spec fn with_geometry<F>(objects: Seq<DesignObject<F>>, id: ObjectId, geometry: Geometry<F>) -> Seq<DesignObject<F>> {
    with_object(objects, id, |o: DesignObject<F>| DesignObject { geometry, ..o })
}

pub open spec fn with_kind<F>(objects: Seq<DesignObject<F>>, id: ObjectId, kind: ObjectKind<F>) -> Seq<DesignObject<F>> {
    with_object(objects, id, |o: DesignObject<F>| DesignObject { kind, ..o })
}

/// `objects` with every member of the group `group` moved up into the
/// group's own group (that of the first object with id `group`; none if
/// there is no such object). Nothing else changes.
pub open spec fn lifted_one<F>(objects: Seq<DesignObject<F>>, group: ObjectId) -> Seq<DesignObject<F>> {
    let up = parent_of(objects, group);
    Seq::new(
        objects.len(),
        |j: int|
            if objects[j].parent_id == Some(group) {
                DesignObject { parent_id: up, ..objects[j] }
            } else {
                objects[j]
            },
    )
}

/// `objects` with the fill and stroke of the first object whose id is `id`
/// set to `props`, if that object is a rectangle or an ellipse (which it
/// stays); unchanged otherwise.
pub open spec fn with_shape<F>(objects: Seq<DesignObject<F>>, id: ObjectId, props: ShapeProperties<F>) -> Seq<DesignObject<F>> {
    match find_index(objects, id) {
        Some(i) => match objects[i].kind {
            ObjectKind::Rectangle(..) => with_kind(objects, id, ObjectKind::Rectangle(props)),
            ObjectKind::Ellipse(..) => with_kind(objects, id, ObjectKind::Ellipse(props)),
            _ => objects,
        },
        None => objects,
    }
}

pub open spec fn with_parent<F>(objects: Seq<DesignObject<F>>, id: ObjectId, parent_id: Option<ObjectId>) -> Seq<DesignObject<F>> {
    with_object(objects, id, |o: DesignObject<F>| DesignObject { parent_id, ..o })
}

pub open spec fn with_name<F>(objects: Seq<DesignObject<F>>, id: ObjectId, name: String) -> Seq<DesignObject<F>> {
    with_object(objects, id, |o: DesignObject<F>| DesignObject { name, ..o })
}

/// `objects` without the first object whose id is `id`.
pub open spec fn without<F>(objects: Seq<DesignObject<F>>, id: ObjectId) -> Seq<DesignObject<F>> {
    match find_index(objects, id) {
        Some(i) => objects.remove(i),
        None => objects,
    }
}

/// `objects` with `object` inserted at `index`, or at the end when `index`
/// is past it.
pub open spec fn inserted_at<F>(objects: Seq<DesignObject<F>>, index: int, object: DesignObject<F>) -> Seq<DesignObject<F>> {
    if 0 <= index <= objects.len() {
        objects.insert(index, object)
    } else {
        objects.push(object)
    }
}

/// `objects` with the first object whose id is `id` moved to `index` (or to
/// the top when `index` is past the end).
pub open spec fn moved<F>(objects: Seq<DesignObject<F>>, id: ObjectId, index: int) -> Seq<DesignObject<F>> {
    match find_index(objects, id) {
        Some(i) => inserted_at(objects.remove(i), index, objects[i]),
        None => objects,
    }
}

/// Following group links up from the object with id `id`, `ancestor` is
/// met within `steps + 1` links.
pub open spec fn has_ancestor<F>(objects: Seq<DesignObject<F>>, id: ObjectId, ancestor: ObjectId, steps: nat) -> bool
    decreases steps,
{
    match find_index(objects, id) {
        Some(i) => match objects[i].parent_id {
            Some(p) => p == ancestor || (steps > 0 && has_ancestor(objects, p, ancestor, (steps - 1) as nat)),
            None => false,
        },
        None => false,
    }
}

/// The object with id `id` lies, directly or through other groups, inside
/// the group `ancestor`.
pub open spec fn is_descendant<F>(objects: Seq<DesignObject<F>>, id: ObjectId, ancestor: ObjectId) -> bool {
    exists|steps: nat| has_ancestor(objects, id, ancestor, steps)
}

/// The group of the object `id`, if it exists and has one.
pub open spec fn parent_of<F>(objects: Seq<DesignObject<F>>, id: ObjectId) -> Option<ObjectId> {
    match find_index(objects, id) {
        Some(i) => objects[i].parent_id,
        None => None,
    }
}

/// Where following group links up from `id` ends, taking at most `steps`
/// links: the outermost group holding `id` (or `id` itself) when the links
/// reach a top within that many.
pub open spec fn ancestor_after<F>(objects: Seq<DesignObject<F>>, id: ObjectId, steps: nat) -> ObjectId
    decreases steps,
{
    if steps == 0 {
        id
    } else {
        match parent_of(objects, id) {
            Some(p) => ancestor_after(objects, p, (steps - 1) as nat),
            None => id,
        }
    }
}

/// Whether `v` holds `x`.
pub fn contains_u64(v: &Vec<u64>, x: u64) -> (b: bool)
    ensures
        b == v@.contains(x),
{
    let mut i: usize = 0;
    while i < v.len()
        invariant
            i <= v.len(),
            forall|j: int| 0 <= j < i ==> v@[j] != x,
        decreases v.len() - i,
    {
        if v[i] == x {
            return true;
        }
        i += 1;
    }
    false
}

/// A list of distinct ids of objects, missing one more id of an object,
/// is shorter than the object list.
proof fn lemma_distinct_ids_bound<F>(objects: Seq<DesignObject<F>>, ids: Seq<ObjectId>, extra: ObjectId)
    requires
        ids_unique(objects),
        ids.no_duplicates(),
        forall|x: ObjectId| ids.contains(x) ==> contains_id(objects, x),
        contains_id(objects, extra),
        !ids.contains(extra),
    ensures
        ids.len() < objects.len(),
{
    let all = ids.push(extra);
    assert(all.no_duplicates());
    let pos = Seq::new(all.len(), |k: int| find_index(objects, all[k])->0);
    assert forall|k: int| 0 <= k < all.len() implies 0 <= #[trigger] pos[k] < objects.len() && objects[pos[k]].id == all[k] by {
        if k < ids.len() {
            assert(all[k] == ids[k]);
            assert(ids.contains(ids[k]));
        }
        assert(contains_id(objects, all[k]));
        let i = choose|i: int| 0 <= i < objects.len() && objects[i].id == all[k];
        lemma_find_unique(objects, i);
    }
    assert(pos.no_duplicates()) by {
        assert forall|a: int, b: int| 0 <= a < pos.len() && 0 <= b < pos.len() && a != b implies pos[a] != pos[b] by {
            assert(objects[pos[a]].id == all[a]);
            assert(objects[pos[b]].id == all[b]);
        }
    }
    let range = vstd::set_lib::set_int_range(0, objects.len() as int);
    vstd::set_lib::lemma_int_range(0, objects.len() as int);
    pos.unique_seq_to_set();
    assert(pos.to_set().subset_of(range));
    vstd::set_lib::lemma_len_subset(pos.to_set(), range);
}

/// `o` belongs directly to `ancestor` or to one of `members`.
pub open spec fn in_group_or_member<F>(o: DesignObject<F>, ancestor: ObjectId, members: Seq<ObjectId>) -> bool {
    match o.parent_id {
        Some(p) => p == ancestor || members.contains(p),
        None => false,
    }
}

/// A set of ids closed under "a child of a member or of `ancestor`" holds
/// every descendant of `ancestor`.
proof fn lemma_closed_has_all<F>(objects: Seq<DesignObject<F>>, found: Seq<ObjectId>, ancestor: ObjectId, x: ObjectId, steps: nat)
    requires
        forall|j: int| 0 <= j < objects.len() && in_group_or_member(#[trigger] objects[j], ancestor, found) ==> found.contains(objects[j].id),
        has_ancestor(objects, x, ancestor, steps),
    ensures
        found.contains(x),
    decreases steps,
{
    let i = find_index(objects, x)->0;
    let p = objects[i].parent_id->0;
    if p != ancestor {
        lemma_closed_has_all(objects, found, ancestor, p, (steps - 1) as nat);
    }
    assert(in_group_or_member(objects[i], ancestor, found));
}

/// The abstract content of a document.
pub ghost struct DocumentModel<F> {
    pub objects: Seq<DesignObject<F>>,
    pub next_id: ObjectId,
    pub canvas_width: F,
    pub canvas_height: F,
    pub background: Seq<char>,
}

pub struct DesignDocument<F> {
    /// The objects in z-order, bottom first.
    pub objects: Vec<DesignObject<F>>,
    /// The last id handed out (ids start at 1).
    pub next_id: ObjectId,
    pub canvas_width: F,
    pub canvas_height: F,
    pub background: String,
    pub assets: AssetManager<F>,
}

impl<F> View for DesignDocument<F> {
    type V = DocumentModel<F>;

    open spec fn view(&self) -> DocumentModel<F> {
        DocumentModel {
            objects: self.objects@,
            next_id: self.next_id,
            canvas_width: self.canvas_width,
            canvas_height: self.canvas_height,
            background: self.background@,
        }
    }
}

impl<F> DocumentModel<F> {
    /// Ids are unique, and every id was handed out by the document's counter.
    pub open spec fn well_formed(self) -> bool {
        &&& ids_unique(self.objects)
        &&& forall|i: int| 0 <= i < self.objects.len() ==> #[trigger] self.objects[i].id <= self.next_id
    }
}

/// The name a freshly inserted object gets: its kind's label and its id.
pub open spec fn default_name<F>(kind: ObjectKind<F>, id: ObjectId) -> Seq<char> {
    kind.label() + " "@ + crate::text::decimal(id as nat)
}

impl<F: Copy> DesignDocument<F> {
    /// An empty document with the given canvas.
    pub fn new(canvas_width: F, canvas_height: F, background: String) -> (document: Self)
        ensures
            document@.objects.len() == 0,
            document@.next_id == 0,
            document@.canvas_width == canvas_width,
            document@.canvas_height == canvas_height,
            document.background == background,
            document.assets@.len() == 0,
            document.assets.next_id() == 0,
    {
        DesignDocument {
            objects: Vec::new(),
            next_id: 0,
            canvas_width,
            canvas_height,
            background,
            assets: AssetManager::new(),
        }
    }

    /// Whether ids are unique and none is past the counter: what a document
    /// read from outside has to be checked for before it is edited.
    pub fn check_well_formed(&self) -> (ok: bool)
        ensures
            ok == self@.well_formed(),
    {
        let n = self.objects.len();
        for i in 0..n
            invariant
                n == self.objects@.len(),
                forall|a: int| 0 <= a < i ==> #[trigger] self@.objects[a].id <= self@.next_id,
                forall|a: int, b: int| 0 <= a < i && 0 <= b < n && a != b ==> self@.objects[a].id != self@.objects[b].id,
        {
            if self.objects[i].id > self.next_id {
                return false;
            }
            for j in 0..n
                invariant
                    n == self.objects@.len(),
                    i < n,
                    forall|b: int| 0 <= b < j && b != i ==> self@.objects[i as int].id != self@.objects[b].id,
            {
                if j != i && self.objects[j].id == self.objects[i].id {
                    return false;
                }
            }
        }
        true
    }

    /// The last id handed out (ids start at 1).
    pub fn last_id(&self) -> (id: ObjectId)
        ensures
            id == self@.next_id,
    {
        self.next_id
    }

    /// The position of the first object with id `id`.
    pub fn position(&self, id: ObjectId) -> (index: Option<usize>)
        ensures
            match index {
                Some(i) => find_index(self@.objects, id) == Some(i as int),
                None => find_index(self@.objects, id) is None,
            },
    {
        let mut i: usize = 0;
        while i < self.objects.len()
            invariant
                i <= self.objects.len(),
                forall|j: int| 0 <= j < i ==> self.objects@[j].id != id,
            decreases self.objects.len() - i,
        {
            if self.objects[i].id == id {
                proof {
                    assert(is_first_index(self@.objects, id, i as int));
                    let k = choose|k: int| is_first_index(self@.objects, id, k);
                    lemma_first_index_unique(self@.objects, id, i as int, k);
                }
                return Some(i);
            }
            i += 1;
        }
        proof {
            if exists|k: int| is_first_index(self@.objects, id, k) {
                let k = choose|k: int| is_first_index(self@.objects, id, k);
                assert(self.objects@[k].id == id);
            }
        }
        None
    }

    /// The first object with id `id`.
    pub fn get(&self, id: ObjectId) -> (object: Option<&DesignObject<F>>)
        ensures
            match find_index(self@.objects, id) {
                Some(i) => object == Some(&self@.objects[i]),
                None => object is None,
            },
    {
        match self.position(id) {
            Some(i) => Some(&self.objects[i]),
            None => None,
        }
    }

    /// Adds a new object on top of the others and returns its id, the next
    /// value of the document's counter. The object is named after its kind
    /// and id ("Rectangle 3").
    pub fn insert(&mut self, kind: ObjectKind<F>, geometry: Geometry<F>) -> (id: ObjectId)
        requires
            old(self)@.next_id < u64::MAX,
        ensures
            id == old(self)@.next_id + 1,
            final(self)@.next_id == id,
            final(self)@.objects == old(self)@.objects.push(
                DesignObject { id, name: final(self)@.objects.last().name, kind, geometry, parent_id: None },
            ),
            final(self)@.objects.last().name@ == default_name(kind, id),
            final(self)@.canvas_width == old(self)@.canvas_width,
            final(self)@.canvas_height == old(self)@.canvas_height,
            final(self)@.background == old(self)@.background,
            final(self).assets == old(self).assets,
            old(self)@.well_formed() ==> final(self)@.well_formed(),
    {
        self.next_id = self.next_id + 1;
        let id = self.next_id;
        let mut name = String::from_str(kind.type_label());
        name.append(" ");
        push_decimal(&mut name, id);
        let object = DesignObject { id, name, kind, geometry, parent_id: None };
        self.objects.push(object);
        proof {
            let objs = self@.objects;
            if old(self)@.well_formed() {
                assert forall|i: int, j: int|
                    0 <= i < objs.len() && 0 <= j < objs.len() && i != j implies objs[i].id != objs[j].id by {
                    if i < objs.len() - 1 && j < objs.len() - 1 {
                        assert(old(self)@.objects[i] == objs[i]);
                        assert(old(self)@.objects[j] == objs[j]);
                    } else if i < objs.len() - 1 {
                        assert(objs[i] == old(self)@.objects[i]);
                    } else {
                        assert(objs[j] == old(self)@.objects[j]);
                    }
                }
                assert forall|i: int| 0 <= i < objs.len() implies #[trigger] objs[i].id <= self@.next_id by {
                    if i < objs.len() - 1 {
                        assert(objs[i] == old(self)@.objects[i]);
                    }
                }
            }
        }
        id
    }

    /// The ids of every object inside the group `id`, directly or through
    /// nested groups, each once.
    pub fn descendants_of(&self, id: ObjectId) -> (found: Vec<ObjectId>)
        requires
            self@.well_formed(),
        ensures
            found@.no_duplicates(),
            forall|x: ObjectId| found@.contains(x) <==> (contains_id(self@.objects, x) && is_descendant(self@.objects, x, id)),
    {
        let objs = Ghost(self@.objects);
        let n = self.objects.len();
        let mut found: Vec<ObjectId> = Vec::new();
        let mut changed = true;
        while changed
            invariant
                objs@ == self@.objects,
                n == objs@.len(),
                self@.well_formed(),
                found@.no_duplicates(),
                found@.len() <= n,
                forall|x: ObjectId| found@.contains(x) ==> contains_id(objs@, x) && is_descendant(objs@, x, id),
                !changed ==> forall|j: int| 0 <= j < n && in_group_or_member(#[trigger] objs@[j], id, found@) ==> found@.contains(objs@[j].id),
            decreases n - found@.len() + if changed { 1int } else { 0int },
        {
            changed = false;
            let ghost start_len = found@.len();
            let mut j: usize = 0;
            while j < n
                invariant
                    objs@ == self@.objects,
                    n == objs@.len(),
                    self@.well_formed(),
                    j <= n,
                    found@.no_duplicates(),
                    found@.len() >= start_len,
                    changed ==> found@.len() > start_len,
                    forall|x: ObjectId| found@.contains(x) ==> contains_id(objs@, x) && is_descendant(objs@, x, id),
                    !changed ==> forall|k: int| 0 <= k < j && in_group_or_member(#[trigger] objs@[k], id, found@) ==> found@.contains(objs@[k].id),
                    found@.len() <= n,
                decreases n - j,
            {
                let object = &self.objects[j];
                let candidate = match object.parent_id {
                    Some(p) => p == id || contains_u64(&found, p),
                    None => false,
                };
                if candidate && !contains_u64(&found, object.id) {
                    proof {
                        lemma_find_unique(objs@, j as int);
                        let p = objs@[j as int].parent_id->0;
                        if p == id {
                            assert(has_ancestor(objs@, object.id, id, 0));
                        } else {
                            assert(found@.contains(p));
                            let steps = choose|steps: nat| has_ancestor(objs@, p, id, steps);
                            assert(has_ancestor(objs@, object.id, id, steps + 1));
                        }
                        assert(is_descendant(objs@, object.id, id));
                        assert(contains_id(objs@, object.id));
                        assert(found@.len() < n) by {
                            lemma_distinct_ids_bound(objs@, found@, object.id);
                        }
                    }
                    found.push(object.id);
                    changed = true;
                }
                j += 1;
            }
        }
        proof {
            assert forall|x: ObjectId| contains_id(self@.objects, x) && is_descendant(self@.objects, x, id) implies found@.contains(x) by {
                let steps = choose|steps: nat| has_ancestor(objs@, x, id, steps);
                lemma_closed_has_all(objs@, found@, id, x, steps);
            }
        }
        found
    }

    /// The outermost group holding the object `id`, or `id` itself when it
    /// is in no group: what a click on the canvas selects. Group links are
    /// followed at most once per object, so a cycle of links ends too.
    pub fn outermost_ancestor(&self, id: ObjectId) -> (top: ObjectId)
        ensures
            top == ancestor_after(self@.objects, id, self@.objects.len()),
    {
        let n = self.objects.len();
        let mut current = id;
        let mut k: usize = 0;
        while k < n
            invariant
                n == self@.objects.len(),
                k <= n,
                ancestor_after(self@.objects, id, n as nat) == ancestor_after(self@.objects, current, (n - k) as nat),
            decreases n - k,
        {
            match self.get(current) {
                Some(object) => match object.parent_id {
                    Some(p) => {
                        current = p;
                        k += 1;
                    },
                    None => return current,
                },
                None => return current,
            }
        }
        current
    }

    /// Puts an existing object (one being restored by undo or redo) on top.
    pub fn insert_object(&mut self, object: DesignObject<F>)
        ensures
            final(self)@ == (DocumentModel { objects: old(self)@.objects.push(object), ..old(self)@ }),
            final(self).assets == old(self).assets,
    {
        self.objects.push(object);
    }

    /// Removes the first object whose id is `id`, if any.
    pub fn remove(&mut self, id: ObjectId)
        ensures
            final(self)@ == (DocumentModel { objects: without(old(self)@.objects, id), ..old(self)@ }),
            final(self).assets == old(self).assets,
    {
        if let Some(i) = self.position(id) {
            self.objects.remove(i);
        }
    }

    /// Removes the first object whose id is `id` and returns it with the
    /// position it occupied.
    pub fn remove_with_index(&mut self, id: ObjectId) -> (removed: Option<(usize, DesignObject<F>)>)
        ensures
            final(self)@ == (DocumentModel { objects: without(old(self)@.objects, id), ..old(self)@ }),
            final(self).assets == old(self).assets,
            match find_index(old(self)@.objects, id) {
                Some(i) => removed == Some((i as usize, old(self)@.objects[i])),
                None => removed is None,
            },
    {
        match self.position(id) {
            Some(i) => {
                let object = self.objects.remove(i);
                Some((i, object))
            },
            None => None,
        }
    }

    /// Inserts `object` at `index` (on top if `index` is past the end).
    pub fn insert_at(&mut self, index: usize, object: DesignObject<F>)
        ensures
            final(self)@ == (DocumentModel { objects: inserted_at(old(self)@.objects, index as int, object), ..old(self)@ }),
            final(self).assets == old(self).assets,
    {
        if index <= self.objects.len() {
            self.objects.insert(index, object);
        } else {
            self.objects.push(object);
        }
    }

    /// Sets the geometry of the first object whose id is `id`, if any.
    pub fn set_geometry(&mut self, id: ObjectId, geometry: Geometry<F>)
        ensures
            final(self)@ == (DocumentModel { objects: with_geometry(old(self)@.objects, id, geometry), ..old(self)@ }),
            final(self).assets == old(self).assets,
    {
        if let Some(i) = self.position(id) {
            self.objects[i].geometry = geometry;
            assert(self@.objects =~= with_geometry(old(self)@.objects, id, geometry));
        }
    }

    /// Sets the kind of the first object whose id is `id`, if any.
    /// Moves every member of the group `group` up into the group's own
    /// group (see `lifted_one`).
    pub fn lift_members(&mut self, group: ObjectId)
        ensures
            final(self)@ == (DocumentModel { objects: lifted_one(old(self)@.objects, group), ..old(self)@ }),
            final(self).assets == old(self).assets,
    {
        let up = match self.get(group) {
            Some(object) => object.parent_id,
            None => None,
        };
        let ghost s = self@.objects;
        let n = self.objects.len();
        for j in 0..n
            invariant
                n == s.len(),
                self.objects@.len() == n,
                up == parent_of(s, group),
                forall|i: int| 0 <= i < j ==> #[trigger] self.objects@[i] == lifted_one(s, group)[i],
                forall|i: int| j <= i < n ==> #[trigger] self.objects@[i] == s[i],
                self@.next_id == old(self)@.next_id,
                self@.canvas_width == old(self)@.canvas_width,
                self@.canvas_height == old(self)@.canvas_height,
                self@.background == old(self)@.background,
                self.assets == old(self).assets,
        {
            let member = match self.objects[j].parent_id {
                Some(p) => p == group,
                None => false,
            };
            if member {
                self.objects[j].parent_id = up;
            }
        }
        assert(self@.objects =~= lifted_one(s, group));
    }

    /// Sets the fill and stroke of the rectangle or ellipse `id`; does
    /// nothing to any other object.
    pub fn set_shape_properties(&mut self, id: ObjectId, props: ShapeProperties<F>)
        ensures
            final(self)@ == (DocumentModel { objects: with_shape(old(self)@.objects, id, props), ..old(self)@ }),
            final(self).assets == old(self).assets,
    {
        let next = match self.get(id) {
            Some(object) => match object.kind {
                ObjectKind::Rectangle(..) => Some(ObjectKind::Rectangle(props)),
                ObjectKind::Ellipse(..) => Some(ObjectKind::Ellipse(props)),
                _ => None,
            },
            None => None,
        };
        if let Some(kind) = next {
            self.set_kind(id, kind);
        }
    }

    pub fn set_kind(&mut self, id: ObjectId, kind: ObjectKind<F>)
        ensures
            final(self)@ == (DocumentModel { objects: with_kind(old(self)@.objects, id, kind), ..old(self)@ }),
            final(self).assets == old(self).assets,
    {
        if let Some(i) = self.position(id) {
            self.objects[i].kind = kind;
            assert(self@.objects =~= with_kind(old(self)@.objects, id, kind));
        }
    }

    /// Renames the first object whose id is `id`, if any.
    pub fn set_name(&mut self, id: ObjectId, name: String)
        ensures
            final(self)@ == (DocumentModel { objects: with_name(old(self)@.objects, id, name), ..old(self)@ }),
            final(self).assets == old(self).assets,
    {
        if let Some(i) = self.position(id) {
            self.objects[i].name = name;
            assert(self@.objects =~= with_name(old(self)@.objects, id, name));
        }
    }

    /// Sets the group of the first object whose id is `id`, if any.
    pub fn set_parent(&mut self, id: ObjectId, parent_id: Option<ObjectId>)
        ensures
            final(self)@ == (DocumentModel { objects: with_parent(old(self)@.objects, id, parent_id), ..old(self)@ }),
            final(self).assets == old(self).assets,
    {
        if let Some(i) = self.position(id) {
            self.objects[i].parent_id = parent_id;
            assert(self@.objects =~= with_parent(old(self)@.objects, id, parent_id));
        }
    }

    /// Moves the first object whose id is `id` to position `new_index` in
    /// z-order (to the top if `new_index` is past the end) and returns the
    /// position it had, or `None` if there is no such object.
    pub fn move_to_index(&mut self, id: ObjectId, new_index: usize) -> (before_index: Option<usize>)
        ensures
            final(self)@ == (DocumentModel { objects: moved(old(self)@.objects, id, new_index as int), ..old(self)@ }),
            final(self).assets == old(self).assets,
            match find_index(old(self)@.objects, id) {
                Some(i) => before_index == Some(i as usize),
                None => before_index is None,
            },
    {
        match self.position(id) {
            Some(i) => {
                let object = self.objects.remove(i);
                if new_index <= self.objects.len() {
                    self.objects.insert(new_index, object);
                } else {
                    self.objects.push(object);
                }
                Some(i)
            },
            None => None,
        }
    }
}


/// The geometry that `shifted` gives the object `id` (its first entry for
/// `id`), or `fallback` when it gives none.
pub open spec fn shifted_geometry<F>(shifted: Seq<(ObjectId, Geometry<F>)>, id: ObjectId, fallback: Geometry<F>) -> Geometry<F>
    decreases shifted.len(),
{
    if shifted.len() == 0 {
        fallback
    } else if shifted[0].0 == id {
        shifted[0].1
    } else {
        shifted_geometry(shifted.drop_first(), id, fallback)
    }
}

/// The copy of `sources[k]` made on a document whose counter stood at
/// `base`: the `k + 1`-th fresh id, the source's name and kind, its geometry
/// from `shifted`, and its group remapped to that group's copy when the group
/// is among the sources.
pub open spec fn copy_of<F>(sources: Seq<DesignObject<F>>, base: ObjectId, shifted: Seq<(ObjectId, Geometry<F>)>, k: int) -> DesignObject<F> {
    let s = sources[k];
    DesignObject {
        id: (base + 1 + k) as ObjectId,
        name: s.name,
        kind: s.kind,
        geometry: shifted_geometry(shifted, s.id, s.geometry),
        parent_id: match s.parent_id {
            Some(p) => match find_index(sources, p) {
                Some(j) => Some((base + 1 + j) as ObjectId),
                None => Some(p),
            },
            None => None,
        },
    }
}

/// The copies of all of `sources`, in order.
pub open spec fn copies_of<F>(sources: Seq<DesignObject<F>>, base: ObjectId, shifted: Seq<(ObjectId, Geometry<F>)>) -> Seq<DesignObject<F>> {
    Seq::new(sources.len(), |k: int| copy_of(sources, base, shifted, k))
}

/// The position of the first object of `objects` with id `id`.
pub fn index_in<F>(objects: &Vec<DesignObject<F>>, id: ObjectId) -> (index: Option<usize>)
    ensures
        match index {
            Some(i) => find_index(objects@, id) == Some(i as int),
            None => find_index(objects@, id) is None,
        },
{
    let mut i: usize = 0;
    while i < objects.len()
        invariant
            i <= objects.len(),
            forall|j: int| 0 <= j < i ==> objects@[j].id != id,
        decreases objects.len() - i,
    {
        if objects[i].id == id {
            proof {
                assert(is_first_index(objects@, id, i as int));
                let k = choose|k: int| is_first_index(objects@, id, k);
                lemma_first_index_unique(objects@, id, i as int, k);
            }
            return Some(i);
        }
        i += 1;
    }
    proof {
        if exists|k: int| is_first_index(objects@, id, k) {
            let k = choose|k: int| is_first_index(objects@, id, k);
            assert(objects@[k].id == id);
        }
    }
    None
}

/// The geometry `shifted` gives `id`, or `fallback` (see `shifted_geometry`).
pub fn shifted_lookup<F: Copy>(shifted: &Vec<(ObjectId, Geometry<F>)>, id: ObjectId, fallback: Geometry<F>) -> (geometry: Geometry<F>)
    ensures
        geometry == shifted_geometry(shifted@, id, fallback),
{
    let mut k: usize = 0;
    assert(shifted@.skip(0) =~= shifted@);
    while k < shifted.len()
        invariant
            k <= shifted.len(),
            shifted_geometry(shifted@, id, fallback) == shifted_geometry(shifted@.skip(k as int), id, fallback),
        decreases shifted.len() - k,
    {
        assert(shifted@.skip(k as int)[0] == shifted@[k as int]);
        if shifted[k].0 == id {
            return shifted[k].1;
        }
        assert(shifted@.skip(k as int).drop_first() =~= shifted@.skip(k + 1));
        k += 1;
    }
    assert(shifted@.skip(k as int).len() == 0);
    fallback
}

impl<F: Copy> DesignDocument<F> {
    /// Adds copies of `sources` on top, in order (see `copy_of`): each takes
    /// the next value of the counter, and a member of a copied group joins
    /// the group's copy. Returns the copies.
    pub fn insert_many_remapped(&mut self, sources: &Vec<DesignObject<F>>, shifted: &Vec<(ObjectId, Geometry<F>)>) -> (created: Vec<DesignObject<F>>)
        requires
            old(self)@.next_id + sources@.len() <= u64::MAX,
        ensures
            created@ == copies_of(sources@, old(self)@.next_id, shifted@),
            final(self)@ == (DocumentModel {
                objects: old(self)@.objects + created@,
                next_id: (old(self)@.next_id + sources@.len()) as ObjectId,
                ..old(self)@
            }),
            final(self).assets == old(self).assets,
            old(self)@.well_formed() ==> final(self)@.well_formed(),
    {
        let base = self.next_id;
        let mut created: Vec<DesignObject<F>> = Vec::new();
        for k in 0..sources.len()
            invariant
                base == old(self)@.next_id,
                base + sources@.len() <= u64::MAX,
                self@ == (DocumentModel {
                    objects: old(self)@.objects + created@,
                    next_id: (base + k) as ObjectId,
                    ..old(self)@
                }),
                created@ == copies_of(sources@, base, shifted@).take(k as int),
                self.assets == old(self).assets,
        {
            let source = &sources[k];
            let parent_id = match source.parent_id {
                Some(p) => match index_in(sources, p) {
                    Some(j) => Some(base + 1 + j as u64),
                    None => Some(p),
                },
                None => None,
            };
            let geometry = shifted_lookup(shifted, source.id, source.geometry);
            self.next_id = self.next_id + 1;
            let object = DesignObject { id: self.next_id, name: source.name.clone(), kind: source.kind.clone(), geometry, parent_id };
            self.objects.push(object.clone());
            created.push(object);
            assert(created@ =~= copies_of(sources@, base, shifted@).take(k + 1));
            assert(self@.objects =~= old(self)@.objects + created@);
        }
        assert(copies_of(sources@, base, shifted@).take(sources@.len() as int) =~= copies_of(sources@, base, shifted@));
        proof {
            let objs = self@.objects;
            let n0 = old(self)@.objects.len();
            if old(self)@.well_formed() {
                assert forall|i: int, j: int|
                    0 <= i < objs.len() && 0 <= j < objs.len() && i != j implies objs[i].id != objs[j].id by {
                    if i < n0 {
                        assert(objs[i] == old(self)@.objects[i]);
                    }
                    if j < n0 {
                        assert(objs[j] == old(self)@.objects[j]);
                    }
                }
                assert forall|i: int| 0 <= i < objs.len() implies #[trigger] objs[i].id <= self@.next_id by {
                    if i < n0 {
                        assert(objs[i] == old(self)@.objects[i]);
                    }
                }
            }
        }
        created
    }
}


/// `shifted` gives `id` the geometry of its first entry for `id`, and
/// leaves `fallback` when it has none.
pub proof fn lemma_shifted_geometry<F>(shifted: Seq<(ObjectId, Geometry<F>)>, id: ObjectId, fallback: Geometry<F>)
    ensures
        (forall|i: int| 0 <= i < shifted.len() ==> (#[trigger] shifted[i]).0 != id) ==> shifted_geometry(shifted, id, fallback)
            == fallback,
        forall|i: int|
            0 <= i < shifted.len() && (#[trigger] shifted[i]).0 == id && (forall|h: int| 0 <= h < i ==> shifted[h].0 != id)
                ==> shifted_geometry(shifted, id, fallback) == shifted[i].1,
    decreases shifted.len(),
{
    if shifted.len() > 0 {
        let rest = shifted.drop_first();
        lemma_shifted_geometry(rest, id, fallback);
        assert forall|i: int|
            0 <= i < shifted.len() && (#[trigger] shifted[i]).0 == id && (forall|h: int| 0 <= h < i ==> shifted[h].0 != id) implies shifted_geometry(
            shifted,
            id,
            fallback,
        ) == shifted[i].1 by {
            if i > 0 {
                assert(shifted[0].0 != id);
                assert(rest[i - 1] == shifted[i]);
                assert forall|h: int| 0 <= h < i - 1 implies rest[h].0 != id by {
                    assert(rest[h] == shifted[h + 1]);
                }
            }
        }
        if forall|i: int| 0 <= i < shifted.len() ==> (#[trigger] shifted[i]).0 != id {
            assert(shifted[0].0 != id);
            assert forall|i: int| 0 <= i < rest.len() implies (#[trigger] rest[i]).0 != id by {
                assert(rest[i] == shifted[i + 1]);
            }
        }
    }
}

/// What duplicating or pasting `sources` (ids unique) on a document whose
/// counter stands at `base` adds: one copy per source, in order, each with a
/// fresh id above the counter, the source's name and kind, and the
/// geometry `shifted` gives its source (the source's own when it gives
/// none). A copy of a member of a copied group is a member of that group's
/// copy, wherever the two stand among the sources; a copy of any other
/// object keeps the source's group.
pub proof fn lemma_copies<F>(sources: Seq<DesignObject<F>>, base: ObjectId, shifted: Seq<(ObjectId, Geometry<F>)>)
    requires
        ids_unique(sources),
        base + sources.len() <= u64::MAX,
    ensures
        copies_of(sources, base, shifted).len() == sources.len(),
        forall|k: int|
            0 <= k < sources.len() ==> base < (#[trigger] copies_of(sources, base, shifted)[k]).id <= base + sources.len(),
        forall|k: int, j: int|
            0 <= k < sources.len() && 0 <= j < sources.len() && k != j ==> (#[trigger] copies_of(sources, base, shifted)[k]).id
                != (#[trigger] copies_of(sources, base, shifted)[j]).id,
        forall|k: int|
            0 <= k < sources.len() ==> (#[trigger] copies_of(sources, base, shifted)[k]).name == sources[k].name
                && copies_of(sources, base, shifted)[k].kind == sources[k].kind,
        forall|k: int, j: int|
            0 <= k < sources.len() && 0 <= j < sources.len() && sources[k].parent_id == Some(sources[j].id) ==> (
            #[trigger] copies_of(sources, base, shifted)[k]).parent_id == Some((#[trigger] copies_of(sources, base, shifted)[j]).id),
        forall|k: int|
            0 <= k < sources.len() && (sources[k].parent_id is None || (sources[k].parent_id matches Some(p) && forall|j: int|
                0 <= j < sources.len() ==> sources[j].id != p)) ==> (#[trigger] copies_of(sources, base, shifted)[k]).parent_id
                == sources[k].parent_id,
        forall|k: int|
            0 <= k < sources.len() && (forall|i: int| 0 <= i < shifted.len() ==> (#[trigger] shifted[i]).0 != sources[k].id)
                ==> (#[trigger] copies_of(sources, base, shifted)[k]).geometry == sources[k].geometry,
        forall|k: int, i: int|
            0 <= k < sources.len() && 0 <= i < shifted.len() && (#[trigger] shifted[i]).0 == sources[k].id && (forall|h: int|
                0 <= h < i ==> shifted[h].0 != sources[k].id) ==> (#[trigger] copies_of(sources, base, shifted)[k]).geometry
                == shifted[i].1,
{
    let c = copies_of(sources, base, shifted);
    assert forall|k: int, j: int|
        0 <= k < sources.len() && 0 <= j < sources.len() && sources[k].parent_id == Some(sources[j].id) implies (
        #[trigger] c[k]).parent_id == Some((#[trigger] c[j]).id) by {
        lemma_find_unique(sources, j);
    }
    assert forall|k: int|
        0 <= k < sources.len() && (sources[k].parent_id is None || (sources[k].parent_id matches Some(p) && forall|j: int|
            0 <= j < sources.len() ==> sources[j].id != p)) implies (#[trigger] c[k]).parent_id == sources[k].parent_id by {
        if let Some(p) = sources[k].parent_id {
            if exists|i: int| is_first_index(sources, p, i) {
                let i = choose|i: int| is_first_index(sources, p, i);
                assert(sources[i].id == p);
            }
        }
    }
    assert forall|k: int|
        0 <= k < sources.len() && (forall|i: int| 0 <= i < shifted.len() ==> (#[trigger] shifted[i]).0 != sources[k].id)
            implies (#[trigger] c[k]).geometry == sources[k].geometry by {
        lemma_shifted_geometry(shifted, sources[k].id, sources[k].geometry);
    }
    assert forall|k: int, i: int|
        0 <= k < sources.len() && 0 <= i < shifted.len() && (#[trigger] shifted[i]).0 == sources[k].id && (forall|h: int|
            0 <= h < i ==> shifted[h].0 != sources[k].id) implies (#[trigger] c[k]).geometry == shifted[i].1 by {
        lemma_shifted_geometry(shifted, sources[k].id, sources[k].geometry);
    }
}

} // verus!
