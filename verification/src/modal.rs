//! The modal operators: grab, rotate and scale.
//!
//! While an operator is active it owns the mouse and the keyboard. Letters
//! constrain it to an axis or lock one, digits give an exact value, the left
//! button or Enter confirms, the right button or Escape puts everything back.

use vstd::prelude::*;
use crate::physics::placed_back;
use crate::scalar::{Scalar, Transform, Vec3};
use crate::scene::{exists_in, lemma_place_of, place_of, Object, ObjectId, Scene};
use crate::selection::{contains, Selection};
use crate::text::{chars_of, string_of};

verus! {

#[derive(Clone, Copy, PartialEq, Eq, Structural, Debug)]
pub enum Kind {
    Grab,
    Rotate,
    Scale,
}

/// Axes are numbered: x is 0, y is 1, z is 2.
#[derive(Clone, Copy, PartialEq, Eq, Structural, Debug)]
pub enum Constraint {
    Free,
    /// Along one axis only.
    Axis(usize),
    /// Along every axis but one.
    Plane(usize),
}

/// An object as it was when the operator started.
#[derive(Clone, Copy, PartialEq, Eq, Structural, Debug)]
pub struct OriginalEntry {
    pub id: ObjectId,
    pub local: Transform,
    pub world: Transform,
    /// Its parent, where that is in the scene.
    pub parent: Option<ObjectId>,
}

/// A point of the screen, in pixels from the lower left corner.
#[derive(Clone, Copy, PartialEq, Eq, Structural, Debug)]
pub struct Mouse {
    pub x: Scalar,
    pub y: Scalar,
}

#[derive(Clone, Copy, PartialEq, Eq, Structural, Debug)]
pub enum GuideKind {
    Move,
    Rotate,
    Scale,
}

/// What the viewport draws of an active operator.
#[derive(Debug)]
pub struct Guides {
    pub kind: GuideKind,
    /// The axes to draw through the pivot.
    pub axes: Vec<usize>,
    pub pivot: Vec3,
    pub start_mouse: Mouse,
    pub cur_mouse: Mouse,
}

#[derive(Debug)]
struct ModalState {
    kind: Kind,
    constraint: Constraint,
    originals: Vec<OriginalEntry>,
    frozen: Vec<OriginalEntry>,
    pivot: Vec3,
    start_mouse: Mouse,
    cur_mouse: Mouse,
    snap: bool,
    numeric: Vec<char>,
}

/// An active operator.
pub struct ModalView {
    pub kind: Kind,
    pub constraint: Constraint,
    /// The objects it transforms.
    pub originals: Seq<OriginalEntry>,
    /// Descendants of them that stay where they are in the world.
    pub frozen: Seq<OriginalEntry>,
    pub pivot: Vec3,
    pub start_mouse: Mouse,
    pub cur_mouse: Mouse,
    pub snap: bool,
    /// The value typed so far.
    pub numeric: Seq<char>,
}

impl View for ModalState {
    type V = ModalView;

    closed spec fn view(&self) -> ModalView {
        ModalView {
            kind: self.kind,
            constraint: self.constraint,
            originals: self.originals@,
            frozen: self.frozen@,
            pivot: self.pivot,
            start_mouse: self.start_mouse,
            cur_mouse: self.cur_mouse,
            snap: self.snap,
            numeric: self.numeric@,
        }
    }
}

/// The operator, where one is active, and the pointer.
#[derive(Debug)]
pub struct ModalTransform {
    state: Option<ModalState>,
    last_mouse: Mouse,
}

/// What a [`ModalTransform`] holds.
pub struct TransformView {
    pub state: Option<ModalView>,
    pub last_mouse: Mouse,
}

impl View for ModalTransform {
    type V = TransformView;

    closed spec fn view(&self) -> TransformView {
        TransformView {
            state: match self.state {
                Some(s) => Some(s@),
                None => None,
            },
            last_mouse: self.last_mouse,
        }
    }
}

/// The letter of an axis.
pub fn axis_name(i: usize) -> (r: &'static str)
    requires
        i < 3,
    ensures
        r@ == axis_letter(i),
{
    if i == 0 {
        "X"
    } else if i == 1 {
        "Y"
    } else {
        "Z"
    }
}

/// The letter of an axis.
pub open spec fn axis_letter(i: usize) -> Seq<char> {
    if i == 0 {
        "X"@
    } else if i == 1 {
        "Y"@
    } else {
        "Z"@
    }
}

/// The axes that a constraint leaves free, drawn as guides.
pub open spec fn guide_axes(c: Constraint) -> Seq<usize> {
    match c {
        Constraint::Free => seq![],
        Constraint::Axis(i) => seq![i],
        Constraint::Plane(i) => if i == 0 {
            seq![1, 2]
        } else if i == 1 {
            seq![0, 2]
        } else {
            seq![0, 1]
        },
    }
}

/// The axis of a constraint is one of the three.
pub open spec fn has_axis(c: Constraint) -> bool {
    match c {
        Constraint::Free => true,
        Constraint::Axis(i) => i < 3,
        Constraint::Plane(i) => i < 3,
    }
}

/// The axis that a letter names, and whether it locks it.
pub open spec fn axis_of(c: char) -> Option<Constraint> {
    if c == 'x' {
        Some(Constraint::Axis(0))
    } else if c == 'y' {
        Some(Constraint::Axis(1))
    } else if c == 'z' {
        Some(Constraint::Axis(2))
    } else if c == 'X' {
        Some(Constraint::Plane(0))
    } else if c == 'Y' {
        Some(Constraint::Plane(1))
    } else if c == 'Z' {
        Some(Constraint::Plane(2))
    } else {
        None
    }
}

fn constraint_for(c: char) -> (r: Option<Constraint>)
    ensures
        r == axis_of(c),
{
    if c == 'x' {
        Some(Constraint::Axis(0))
    } else if c == 'y' {
        Some(Constraint::Axis(1))
    } else if c == 'z' {
        Some(Constraint::Axis(2))
    } else if c == 'X' {
        Some(Constraint::Plane(0))
    } else if c == 'Y' {
        Some(Constraint::Plane(1))
    } else if c == 'Z' {
        Some(Constraint::Plane(2))
    } else {
        None
    }
}

/// A decimal digit.
pub open spec fn is_digit(c: char) -> bool {
    '0' <= c <= '9'
}

/// The typed value after one more character: digits are appended, a point or
/// comma once, and a minus sign comes and goes.
pub open spec fn typed(numeric: Seq<char>, c: char) -> Seq<char> {
    if is_digit(c) {
        numeric.push(c)
    } else if c == '.' || c == ',' {
        if numeric.contains('.') {
            numeric
        } else {
            numeric.push('.')
        }
    } else if c == '-' {
        if numeric.len() > 0 && numeric[0] == '-' {
            numeric.skip(1)
        } else {
            seq!['-'] + numeric
        }
    } else {
        numeric
    }
}

/// The operator after a text was typed. Only single characters mean
/// anything to it.
pub open spec fn after_text(s: ModalView, text: Seq<char>) -> ModalView {
    if text.len() != 1 {
        s
    } else {
        match axis_of(text[0]) {
            Some(c) => ModalView {
                constraint: if s.constraint == c {
                    Constraint::Free
                } else {
                    c
                },
                ..s
            },
            None => ModalView { numeric: typed(s.numeric, text[0]), ..s },
        }
    }
}

fn has_point(numeric: &Vec<char>) -> (r: bool)
    ensures
        r == numeric@.contains('.'),
{
    let mut i: usize = 0;
    while i < numeric.len()
        invariant
            i <= numeric@.len(),
            forall|k: int| 0 <= k < i ==> numeric@[k] != '.',
        decreases numeric@.len() - i,
    {
        if numeric[i] == '.' {
            assert(numeric@[i as int] == '.');
            return true;
        }
        i += 1;
    }
    false
}

fn type_char(numeric: &mut Vec<char>, c: char)
    ensures
        final(numeric)@ == typed(old(numeric)@, c),
{
    if '0' <= c && c <= '9' {
        numeric.push(c);
    } else if c == '.' || c == ',' {
        if !has_point(numeric) {
            numeric.push('.');
        }
    } else if c == '-' {
        if numeric.len() > 0 && numeric[0] == '-' {
            numeric.remove(0);
            assert(numeric@ =~= old(numeric)@.skip(1));
        } else {
            numeric.insert(0, '-');
            assert(numeric@ =~= seq!['-'] + old(numeric)@);
        }
    }
}

/// The text is a number as far as it was typed: a sign, then digits with at
/// most one point among them.
pub open spec fn is_partial_number(numeric: Seq<char>) -> bool {
    &&& forall|i: int|
        0 <= i < numeric.len() ==> is_digit(#[trigger] numeric[i]) || numeric[i] == '.' || (
        numeric[i] == '-' && i == 0)
    &&& forall|i: int, j: int|
        0 <= i < j < numeric.len() && #[trigger] numeric[i] == '.' ==> #[trigger] numeric[j] != '.'
}

/// Whatever is typed, the value stays a number as far as it was typed.
pub proof fn law_typing_keeps_a_number(numeric: Seq<char>, c: char)
    requires
        is_partial_number(numeric),
    ensures
        is_partial_number(typed(numeric, c)),
{
    let now = typed(numeric, c);
    if c == '-' {
        if numeric.len() > 0 && numeric[0] == '-' {
            assert forall|i: int| 0 <= i < now.len() implies is_digit(#[trigger] now[i]) || now[i]
                == '.' || (now[i] == '-' && i == 0) by {
                assert(now[i] == numeric[i + 1]);
            }
            assert forall|i: int, j: int|
                0 <= i < j < now.len() && #[trigger] now[i] == '.' implies #[trigger] now[j]
                != '.' by {
                assert(now[i] == numeric[i + 1] && now[j] == numeric[j + 1]);
            }
        } else {
            assert forall|i: int| 0 <= i < now.len() implies is_digit(#[trigger] now[i]) || now[i]
                == '.' || (now[i] == '-' && i == 0) by {
                if i > 0 {
                    assert(now[i] == numeric[i - 1]);
                }
            }
            assert forall|i: int, j: int|
                0 <= i < j < now.len() && #[trigger] now[i] == '.' implies #[trigger] now[j]
                != '.' by {
                if i > 0 {
                    assert(now[i] == numeric[i - 1] && now[j] == numeric[j - 1]);
                }
            }
        }
    } else if c == '.' || c == ',' {
        if !numeric.contains('.') {
            assert forall|i: int, j: int|
                0 <= i < j < now.len() && #[trigger] now[i] == '.' implies #[trigger] now[j]
                != '.' by {
                assert(numeric[i] == '.');
            }
        }
    }
}

/// Typing a minus sign twice changes nothing.
pub proof fn law_minus_toggles(numeric: Seq<char>)
    requires
        is_partial_number(numeric),
    ensures
        typed(typed(numeric, '-'), '-') == numeric,
{
    let once = typed(numeric, '-');
    if numeric.len() > 0 && numeric[0] == '-' {
        if once.len() > 0 {
            assert(once[0] == numeric[1]);
        }
        assert(typed(once, '-') =~= numeric);
    } else {
        assert(once[0] == '-');
        assert(typed(once, '-') =~= numeric);
    }
}

/// Typing the letter of the constraint in force frees the operator, and
/// typing it again constrains it again.
pub proof fn law_axis_letter_toggles(s: ModalView, text: Seq<char>)
    requires
        text.len() == 1,
        axis_of(text[0]) is Some,
        s.constraint == axis_of(text[0])->0,
    ensures
        after_text(s, text).constraint is Free,
        after_text(after_text(s, text), text) == s,
{
}

/// The typed text stands for a number: it has a digit.
pub open spec fn has_value(numeric: Seq<char>) -> bool {
    exists|i: int| 0 <= i < numeric.len() && is_digit(#[trigger] numeric[i])
}

fn holds_digit(numeric: &Vec<char>) -> (r: bool)
    ensures
        r == has_value(numeric@),
{
    let mut i: usize = 0;
    while i < numeric.len()
        invariant
            i <= numeric@.len(),
            forall|k: int| 0 <= k < i ==> !is_digit(#[trigger] numeric@[k]),
        decreases numeric@.len() - i,
    {
        if '0' <= numeric[i] && numeric[i] <= '9' {
            assert(is_digit(numeric@[i as int]));
            return true;
        }
        i += 1;
    }
    false
}

/// What a text starts while no operator is active.
#[derive(Clone, Copy, PartialEq, Eq, Structural, Debug)]
pub enum Request {
    Start(Kind),
    /// Duplicate the selection, then grab the copies.
    Duplicate,
}

/// What a text starts while no operator is active.
pub fn start_request(text: &str) -> (r: Option<Request>)
    ensures
        r == (if text@.len() != 1 {
            None
        } else if text@[0] == 'g' {
            Some(Request::Start(Kind::Grab))
        } else if text@[0] == 'r' {
            Some(Request::Start(Kind::Rotate))
        } else if text@[0] == 's' {
            Some(Request::Start(Kind::Scale))
        } else if text@[0] == 'D' {
            Some(Request::Duplicate)
        } else {
            None
        }),
{
    let chars = chars_of(text);
    if chars.len() != 1 {
        return None;
    }
    let c = chars[0];
    if c == 'g' {
        Some(Request::Start(Kind::Grab))
    } else if c == 'r' {
        Some(Request::Start(Kind::Rotate))
    } else if c == 's' {
        Some(Request::Start(Kind::Scale))
    } else if c == 'D' {
        Some(Request::Duplicate)
    } else {
        None
    }
}

/// The object `id` hangs on `above`, directly or through at most `steps`
/// others.
pub open spec fn hangs_on(objects: Seq<Object>, id: ObjectId, above: ObjectId, steps: nat) -> bool
    decreases steps,
{
    if steps == 0 {
        false
    } else {
        match place_of(objects, id) {
            Some(i) => match objects[i].parent {
                Some(p) => p == above || hangs_on(objects, p, above, (steps - 1) as nat),
                None => false,
            },
            None => false,
        }
    }
}

/// Is `above` an ancestor of `id`?
pub fn is_ancestor(scene: &Scene, above: ObjectId, id: ObjectId) -> (r: bool)
    ensures
        r == hangs_on(scene.objects@, id, above, scene.objects@.len()),
{
    let mut at = id;
    let mut steps: usize = scene.objects.len();
    while steps > 0
        invariant
            steps <= scene.objects@.len(),
            hangs_on(scene.objects@, id, above, scene.objects@.len()) == hangs_on(
                scene.objects@,
                at,
                above,
                steps as nat,
            ),
        decreases steps,
    {
        match scene.find(at) {
            Some(i) => match scene.objects[i].parent {
                Some(p) => {
                    if p == above {
                        return true;
                    }
                    at = p;
                    steps = steps - 1;
                },
                None => {
                    return false;
                },
            },
            None => {
                return false;
            },
        }
    }
    false
}

/// Those of the first `n` objects that hang on `root`, directly or not.
pub open spec fn hanging(objects: Seq<Object>, root: ObjectId, n: nat) -> Seq<ObjectId>
    decreases n,
{
    if n == 0 {
        seq![]
    } else {
        let before = hanging(objects, root, (n - 1) as nat);
        let id = objects[n - 1].id;
        if id != root && hangs_on(objects, id, root, objects.len()) {
            before.push(id)
        } else {
            before
        }
    }
}

/// An object and all that hang on it, directly or not.
pub fn subtree(scene: &Scene, root: ObjectId) -> (r: Vec<ObjectId>)
    ensures
        r@ == seq![root] + hanging(scene.objects@, root, scene.objects@.len()),
{
    let mut found: Vec<ObjectId> = vec![root];
    let mut i: usize = 0;
    assert(found@ =~= seq![root] + hanging(scene.objects@, root, 0));
    while i < scene.objects.len()
        invariant
            i <= scene.objects@.len(),
            found@ == seq![root] + hanging(scene.objects@, root, i as nat),
        decreases scene.objects@.len() - i,
    {
        let id = scene.objects[i].id;
        let ghost before = hanging(scene.objects@, root, i as nat);
        if id != root && is_ancestor(scene, root, id) {
            found.push(id);
            assert(found@ =~= seq![root] + before.push(id));
        }
        i += 1;
    }
    found
}

/// How many of the first `n` objects the object `id` hangs on.
pub open spec fn depth_among(objects: Seq<Object>, id: ObjectId, n: nat) -> nat
    decreases n,
{
    if n == 0 {
        0
    } else {
        depth_among(objects, id, (n - 1) as nat) + if hangs_on(
            objects,
            id,
            objects[n - 1].id,
            objects.len(),
        ) {
            1nat
        } else {
            0nat
        }
    }
}

/// How many objects each object hangs on.
pub fn depths(scene: &Scene) -> (r: Vec<usize>)
    ensures
        r@.len() == scene.objects@.len(),
        forall|i: int|
            0 <= i < r@.len() ==> (#[trigger] r@[i]) == depth_among(
                scene.objects@,
                scene.objects@[i].id,
                scene.objects@.len(),
            ),
{
    let mut all: Vec<usize> = Vec::new();
    let mut i: usize = 0;
    while i < scene.objects.len()
        invariant
            i <= scene.objects@.len(),
            all@.len() == i,
            forall|k: int|
                0 <= k < i ==> (#[trigger] all@[k]) == depth_among(
                    scene.objects@,
                    scene.objects@[k].id,
                    scene.objects@.len(),
                ),
        decreases scene.objects@.len() - i,
    {
        let id = scene.objects[i].id;
        let mut depth: usize = 0;
        let mut n: usize = 0;
        while n < scene.objects.len()
            invariant
                n <= scene.objects@.len(),
                depth <= n,
                depth == depth_among(scene.objects@, id, n as nat),
            decreases scene.objects@.len() - n,
        {
            if is_ancestor(scene, scene.objects[n].id, id) {
                depth += 1;
            }
            n += 1;
        }
        all.push(depth);
        i += 1;
    }
    all
}

/// The object hangs on one of the first `n` selected ones.
pub open spec fn hangs_on_some(
    objects: Seq<Object>,
    id: ObjectId,
    selected: Seq<ObjectId>,
    n: nat,
) -> bool
    decreases n,
{
    n > 0 && (hangs_on_some(objects, id, selected, (n - 1) as nat) || hangs_on(
        objects,
        id,
        selected[n - 1],
        objects.len(),
    ))
}

fn follows(scene: &Scene, id: ObjectId, selected: &Vec<ObjectId>) -> (r: bool)
    ensures
        r == hangs_on_some(scene.objects@, id, selected@, selected@.len()),
{
    let mut found = false;
    let mut n: usize = 0;
    while n < selected.len()
        invariant
            n <= selected@.len(),
            found == hangs_on_some(scene.objects@, id, selected@, n as nat),
        decreases selected@.len() - n,
    {
        if is_ancestor(scene, selected[n], id) {
            found = true;
        }
        n += 1;
    }
    found
}

/// Object `i` as it is when the operator starts.
pub open spec fn entry_at(objects: Seq<Object>, worlds: Seq<Transform>, i: int) -> OriginalEntry {
    let o = objects[i];
    OriginalEntry {
        id: o.id,
        local: o.transform,
        world: worlds[i],
        parent: match o.parent {
            Some(p) => if exists_in(objects, p) {
                Some(p)
            } else {
                None
            },
            None => None,
        },
    }
}

/// The selected ones among the first `n` objects.
pub open spec fn selected_entries(
    objects: Seq<Object>,
    worlds: Seq<Transform>,
    selected: Seq<ObjectId>,
    n: nat,
) -> Seq<OriginalEntry>
    decreases n,
{
    if n == 0 {
        seq![]
    } else {
        let before = selected_entries(objects, worlds, selected, (n - 1) as nat);
        if selected.contains(objects[n - 1].id) {
            before.push(entry_at(objects, worlds, n - 1))
        } else {
            before
        }
    }
}

/// Those among the first `n` objects that hang on selected ones and are not
/// selected themselves.
pub open spec fn following_entries(
    objects: Seq<Object>,
    worlds: Seq<Transform>,
    selected: Seq<ObjectId>,
    n: nat,
) -> Seq<OriginalEntry>
    decreases n,
{
    if n == 0 {
        seq![]
    } else {
        let before = following_entries(objects, worlds, selected, (n - 1) as nat);
        let id = objects[n - 1].id;
        if !selected.contains(id) && hangs_on_some(objects, id, selected, selected.len()) {
            before.push(entry_at(objects, worlds, n - 1))
        } else {
            before
        }
    }
}

fn record(scene: &Scene, worlds: &Vec<Transform>, i: usize) -> (r: OriginalEntry)
    requires
        i < scene.objects@.len(),
        worlds@.len() == scene.objects@.len(),
    ensures
        r == entry_at(scene.objects@, worlds@, i as int),
{
    let o = &scene.objects[i];
    let parent = match o.parent {
        Some(p) => if scene.contains(p) {
            Some(p)
        } else {
            None
        },
        None => None,
    };
    OriginalEntry { id: o.id, local: o.transform, world: worlds[i], parent }
}

fn record_selected(scene: &Scene, worlds: &Vec<Transform>, selected: &Vec<ObjectId>) -> (r: Vec<
    OriginalEntry,
>)
    requires
        worlds@.len() == scene.objects@.len(),
    ensures
        r@ == selected_entries(scene.objects@, worlds@, selected@, scene.objects@.len()),
{
    let mut r: Vec<OriginalEntry> = Vec::new();
    let mut n: usize = 0;
    while n < scene.objects.len()
        invariant
            n <= scene.objects@.len(),
            worlds@.len() == scene.objects@.len(),
            r@ == selected_entries(scene.objects@, worlds@, selected@, n as nat),
        decreases scene.objects@.len() - n,
    {
        if contains(selected, scene.objects[n].id) {
            r.push(record(scene, worlds, n));
        }
        n += 1;
    }
    r
}

fn record_following(scene: &Scene, worlds: &Vec<Transform>, selected: &Vec<ObjectId>) -> (r: Vec<
    OriginalEntry,
>)
    requires
        worlds@.len() == scene.objects@.len(),
    ensures
        r@ == following_entries(scene.objects@, worlds@, selected@, scene.objects@.len()),
{
    let mut r: Vec<OriginalEntry> = Vec::new();
    let mut n: usize = 0;
    while n < scene.objects.len()
        invariant
            n <= scene.objects@.len(),
            worlds@.len() == scene.objects@.len(),
            r@ == following_entries(scene.objects@, worlds@, selected@, n as nat),
        decreases scene.objects@.len() - n,
    {
        let id = scene.objects[n].id;
        if !contains(selected, id) && follows(scene, id, selected) {
            r.push(record(scene, worlds, n));
        }
        n += 1;
    }
    r
}

/// How a frame of the operator ends.
#[derive(Clone, Copy, PartialEq, Eq, Structural, Debug)]
pub enum FrameEnd {
    /// Everything is back where it was, and the operator is gone.
    Cancelled,
    /// The operator is to be applied, and then it may be done.
    Apply { confirm: bool },
}

/// The operator that starts on a selection. Grabbing takes along what hangs
/// on the selected objects; rotating and scaling leave it where it is.
pub open spec fn started(
    kind: Kind,
    objects: Seq<Object>,
    worlds: Seq<Transform>,
    selected: Seq<ObjectId>,
    pivot: Vec3,
    mouse: Mouse,
) -> ModalView {
    ModalView {
        kind,
        constraint: Constraint::Free,
        originals: selected_entries(objects, worlds, selected, objects.len()),
        frozen: if kind is Grab {
            seq![]
        } else {
            following_entries(objects, worlds, selected, objects.len())
        },
        pivot,
        start_mouse: mouse,
        cur_mouse: mouse,
        snap: false,
        numeric: seq![],
    }
}

/// The objects that a vertex can snap to among the first `n`: those that are
/// visible and do not move.
pub open spec fn snap_targets(objects: Seq<Object>, selected: Seq<ObjectId>, n: nat) -> Seq<
    ObjectId,
>
    decreases n,
{
    if n == 0 {
        seq![]
    } else {
        let before = snap_targets(objects, selected, (n - 1) as nat);
        let o = objects[n - 1];
        if o.visible && !selected.contains(o.id) && !hangs_on_some(
            objects,
            o.id,
            selected,
            selected.len(),
        ) {
            before.push(o.id)
        } else {
            before
        }
    }
}

/// The objects whose vertices a grabbed selection can snap to.
pub fn snap_objects(scene: &Scene, selection: &Selection) -> (r: Vec<ObjectId>)
    ensures
        r@ == snap_targets(scene.objects@, selection@.selected, scene.objects@.len()),
{
    let selected = selection.selected();
    let mut r: Vec<ObjectId> = Vec::new();
    let mut n: usize = 0;
    while n < scene.objects.len()
        invariant
            n <= scene.objects@.len(),
            selected@ == selection@.selected,
            r@ == snap_targets(scene.objects@, selected@, n as nat),
        decreases scene.objects@.len() - n,
    {
        let o = &scene.objects[n];
        if o.visible && !contains(selected, o.id) && !follows(scene, o.id, selected) {
            r.push(o.id);
        }
        n += 1;
    }
    r
}

#[derive(Clone, Copy, PartialEq, Eq, Structural, Debug)]
pub enum Button {
    Left,
    Middle,
    Right,
}

#[derive(Clone, Copy, PartialEq, Eq, Structural, Debug)]
pub enum ModalKey {
    Enter,
    Escape,
    Backspace,
    Other,
}

/// Something that happened. `handled` says that it was used up before.
#[derive(Debug)]
pub enum ModalEvent {
    Motion { at: Mouse, ctrl: bool, handled: bool },
    Press { button: Button, at: Mouse, handled: bool },
    Release { button: Button, handled: bool },
    Key { key: ModalKey, ctrl: bool, handled: bool },
    /// `taken` says that a text field has the keyboard.
    Text { text: String, taken: bool },
}

/// What an event did.
#[derive(Clone, Copy, PartialEq, Eq, Structural, Debug)]
pub struct Reply {
    /// The event is used up.
    pub handled: bool,
    pub confirm: bool,
    pub cancel: bool,
}

/// What an event does, where it finds an operator active or not.
pub open spec fn reply_to(event: ModalEvent, active: bool) -> Reply {
    match event {
        ModalEvent::Motion { handled, .. } => Reply {
            handled: handled || active,
            confirm: false,
            cancel: false,
        },
        ModalEvent::Press { button, handled, .. } => {
            let counts = active && !handled;
            Reply {
                handled: handled || (active && !(button is Middle)),
                confirm: counts && button is Left,
                cancel: counts && button is Right,
            }
        },
        ModalEvent::Release { button, handled } => Reply {
            handled: handled || (active && !(button is Middle)),
            confirm: false,
            cancel: false,
        },
        ModalEvent::Key { key, handled, .. } => Reply {
            handled: handled || active,
            confirm: active && !handled && key is Enter,
            cancel: active && !handled && key is Escape,
        },
        ModalEvent::Text { text, taken } => Reply {
            handled: active && !taken && text@.len() > 0,
            confirm: false,
            cancel: false,
        },
    }
}

/// The operator after an event.
pub open spec fn state_after(s: ModalView, event: ModalEvent) -> ModalView {
    match event {
        ModalEvent::Motion { at, ctrl, .. } => ModalView { cur_mouse: at, snap: ctrl, ..s },
        ModalEvent::Key { key, ctrl, handled } => if handled {
            s
        } else {
            ModalView {
                snap: ctrl,
                numeric: if key is Backspace && s.numeric.len() > 0 {
                    s.numeric.drop_last()
                } else {
                    s.numeric
                },
                ..s
            }
        },
        ModalEvent::Text { text, taken } => if taken {
            s
        } else {
            after_text(s, text@)
        },
        _ => s,
    }
}

/// Whatever happens, a constraint names one of the three axes.
pub proof fn law_constraints_name_an_axis(s: ModalView, event: ModalEvent)
    requires
        has_axis(s.constraint),
    ensures
        has_axis(state_after(s, event).constraint),
{
}

/// The pointer after an event.
pub open spec fn mouse_after(mouse: Mouse, event: ModalEvent) -> Mouse {
    match event {
        ModalEvent::Motion { at, .. } => at,
        ModalEvent::Press { at, .. } => at,
        _ => mouse,
    }
}

/// The entries of a snapshot: what is put back when the operator is
/// cancelled.
pub open spec fn records(entries: Seq<OriginalEntry>) -> Seq<(ObjectId, Transform)> {
    Seq::new(entries.len(), |i: int| (entries[i].id, entries[i].local))
}

/// Writes placements into the scene, in order.
pub fn write_locals(scene: &mut Scene, writes: &Vec<(ObjectId, Transform)>)
    ensures
        final(scene).objects@ == placed_back(old(scene).objects@, writes@, writes@.len()),
        final(scene).folders == old(scene).folders,
        final(scene).next_id == old(scene).next_id,
{
    let mut n: usize = 0;
    while n < writes.len()
        invariant
            n <= writes@.len(),
            scene.objects@ == placed_back(old(scene).objects@, writes@, n as nat),
            scene.folders == old(scene).folders,
            scene.next_id == old(scene).next_id,
        decreases writes@.len() - n,
    {
        let (id, local) = writes[n];
        match scene.find(id) {
            Some(i) => {
                scene.objects[i].transform = local;
            },
            None => {},
        }
        n += 1;
        assert(scene.objects@ =~= placed_back(old(scene).objects@, writes@, n as nat));
    }
}

impl ModalTransform {
    pub fn new() -> (r: ModalTransform)
        ensures
            r@.state is None,
            r@.last_mouse == (Mouse { x: Scalar { bits: 0 }, y: Scalar { bits: 0 } }),
    {
        let zero = Scalar { bits: 0 };
        ModalTransform { state: None, last_mouse: Mouse { x: zero, y: zero } }
    }

    /// Is an operator active?
    pub fn active(&self) -> (r: bool)
        ensures
            r == (self@.state is Some),
    {
        self.state.is_some()
    }

    /// What the viewport draws of the active operator.
    pub fn guides(&self) -> (r: Option<Guides>)
        ensures
            r is Some == self@.state is Some,
            r matches Some(g) ==> {
                let s = self@.state->0;
                &&& g.kind == (match s.kind {
                    Kind::Grab => GuideKind::Move,
                    Kind::Rotate => GuideKind::Rotate,
                    Kind::Scale => GuideKind::Scale,
                })
                &&& g.axes@ == guide_axes(s.constraint)
                &&& g.pivot == s.pivot
                &&& g.start_mouse == s.start_mouse
                &&& g.cur_mouse == s.cur_mouse
            },
    {
        match &self.state {
            None => None,
            Some(s) => {
                let kind = match s.kind {
                    Kind::Grab => GuideKind::Move,
                    Kind::Rotate => GuideKind::Rotate,
                    Kind::Scale => GuideKind::Scale,
                };
                let mut axes: Vec<usize> = Vec::new();
                match s.constraint {
                    Constraint::Free => {},
                    Constraint::Axis(i) => {
                        axes.push(i);
                    },
                    Constraint::Plane(i) => {
                        if i != 0 {
                            axes.push(0);
                        }
                        if i != 1 {
                            axes.push(1);
                        }
                        if i == 0 || i == 1 {
                            axes.push(2);
                        }
                    },
                }
                assert(axes@ =~= guide_axes(s.constraint));
                Some(
                    Guides {
                        kind,
                        axes,
                        pivot: s.pivot,
                        start_mouse: s.start_mouse,
                        cur_mouse: s.cur_mouse,
                    },
                )
            },
        }
    }

    /// Starts an operator on the selected objects, around the pivot. Nothing
    /// starts where none of them is in the scene.
    pub fn start(
        &mut self,
        kind: Kind,
        scene: &Scene,
        worlds: &Vec<Transform>,
        selection: &Selection,
        pivot: Vec3,
    )
        requires
            worlds@.len() == scene.objects@.len(),
        ensures
            final(self)@.last_mouse == old(self)@.last_mouse,
            ({
                let s = started(
                    kind,
                    scene.objects@,
                    worlds@,
                    selection@.selected,
                    pivot,
                    old(self)@.last_mouse,
                );
                final(self)@.state == (if s.originals.len() == 0 {
                    old(self)@.state
                } else {
                    Some(s)
                })
            }),
    {
        let selected = selection.selected();
        let originals = record_selected(scene, worlds, selected);
        if originals.len() == 0 {
            return ;
        }
        let frozen = match kind {
            Kind::Grab => Vec::new(),
            _ => record_following(scene, worlds, selected),
        };
        let numeric: Vec<char> = Vec::new();
        let state = ModalState {
            kind,
            constraint: Constraint::Free,
            originals,
            frozen,
            pivot,
            start_mouse: self.last_mouse,
            cur_mouse: self.last_mouse,
            snap: false,
            numeric,
        };
        proof {
            assert(state@.numeric =~= seq![]);
            if kind is Grab {
                assert(state@.frozen =~= seq![]);
            }
        }
        self.state = Some(state);
    }

    /// Starts grabbing the selection.
    pub fn begin_grab(
        &mut self,
        scene: &Scene,
        worlds: &Vec<Transform>,
        selection: &Selection,
        pivot: Vec3,
    )
        requires
            worlds@.len() == scene.objects@.len(),
        ensures
            final(self)@.last_mouse == old(self)@.last_mouse,
            ({
                let s = started(
                    Kind::Grab,
                    scene.objects@,
                    worlds@,
                    selection@.selected,
                    pivot,
                    old(self)@.last_mouse,
                );
                final(self)@.state == (if s.originals.len() == 0 {
                    old(self)@.state
                } else {
                    Some(s)
                })
            }),
    {
        self.start(Kind::Grab, scene, worlds, selection, pivot);
    }

    /// Starts rotating the selection.
    pub fn begin_rotate(
        &mut self,
        scene: &Scene,
        worlds: &Vec<Transform>,
        selection: &Selection,
        pivot: Vec3,
    )
        requires
            worlds@.len() == scene.objects@.len(),
        ensures
            final(self)@.last_mouse == old(self)@.last_mouse,
            ({
                let s = started(
                    Kind::Rotate,
                    scene.objects@,
                    worlds@,
                    selection@.selected,
                    pivot,
                    old(self)@.last_mouse,
                );
                final(self)@.state == (if s.originals.len() == 0 {
                    old(self)@.state
                } else {
                    Some(s)
                })
            }),
    {
        self.start(Kind::Rotate, scene, worlds, selection, pivot);
    }

    /// Starts scaling the selection.
    pub fn begin_scale(
        &mut self,
        scene: &Scene,
        worlds: &Vec<Transform>,
        selection: &Selection,
        pivot: Vec3,
    )
        requires
            worlds@.len() == scene.objects@.len(),
        ensures
            final(self)@.last_mouse == old(self)@.last_mouse,
            ({
                let s = started(
                    Kind::Scale,
                    scene.objects@,
                    worlds@,
                    selection@.selected,
                    pivot,
                    old(self)@.last_mouse,
                );
                final(self)@.state == (if s.originals.len() == 0 {
                    old(self)@.state
                } else {
                    Some(s)
                })
            }),
    {
        self.start(Kind::Scale, scene, worlds, selection, pivot);
    }

    /// Handles an event.
    pub fn handle_event(&mut self, event: &ModalEvent) -> (r: Reply)
        ensures
            r == reply_to(*event, old(self)@.state is Some),
            final(self)@.last_mouse == mouse_after(old(self)@.last_mouse, *event),
            final(self)@.state == (match old(self)@.state {
                Some(s) => Some(state_after(s, *event)),
                None => None,
            }),
    {
        let active = self.state.is_some();
        match event {
            ModalEvent::Motion { at, ctrl, handled } => {
                self.last_mouse = *at;
                match &mut self.state {
                    Some(s) => {
                        s.cur_mouse = *at;
                        s.snap = *ctrl;
                    },
                    None => {},
                }
                Reply { handled: *handled || active, confirm: false, cancel: false }
            },
            ModalEvent::Press { button, at, handled } => {
                self.last_mouse = *at;
                let counts = active && !*handled;
                Reply {
                    handled: *handled || (active && *button != Button::Middle),
                    confirm: counts && *button == Button::Left,
                    cancel: counts && *button == Button::Right,
                }
            },
            ModalEvent::Release { button, handled } => Reply {
                handled: *handled || (active && *button != Button::Middle),
                confirm: false,
                cancel: false,
            },
            ModalEvent::Key { key, ctrl, handled } => {
                if *handled || !active {
                    return Reply { handled: *handled, confirm: false, cancel: false };
                }
                match &mut self.state {
                    Some(s) => {
                        s.snap = *ctrl;
                        if *key == ModalKey::Backspace {
                            let ghost before = s.numeric@;
                            let last = s.numeric.pop();
                            assert(before.len() == 0 ==> s.numeric@ =~= before);
                        }
                    },
                    None => {},
                }
                Reply {
                    handled: true,
                    confirm: *key == ModalKey::Enter,
                    cancel: *key == ModalKey::Escape,
                }
            },
            ModalEvent::Text { text, taken } => {
                if *taken {
                    return Reply { handled: false, confirm: false, cancel: false };
                }
                let chars = chars_of(text.as_str());
                self.text_while_active(&chars);
                Reply { handled: active && chars.len() > 0, confirm: false, cancel: false }
            },
        }
    }

    fn text_while_active(&mut self, chars: &Vec<char>)
        ensures
            final(self)@.last_mouse == old(self)@.last_mouse,
            final(self)@.state == (match old(self)@.state {
                Some(s) => Some(after_text(s, chars@)),
                None => None,
            }),
    {
        if chars.len() != 1 {
            return ;
        }
        match &mut self.state {
            Some(s) => {
                match constraint_for(chars[0]) {
                    Some(c) => {
                        s.constraint = if s.constraint == c {
                            Constraint::Free
                        } else {
                            c
                        };
                    },
                    None => {
                        type_char(&mut s.numeric, chars[0]);
                    },
                }
            },
            None => {},
        }
    }

    /// Ends a frame in whose events these were asked for. Cancelling goes
    /// before confirming.
    pub fn end_frame(&mut self, scene: &mut Scene, confirm: bool, cancel: bool) -> (r: FrameEnd)
        ensures
            final(scene).folders == old(scene).folders,
            final(scene).next_id == old(scene).next_id,
            cancel ==> {
                &&& r is Cancelled
                &&& final(self)@.state is None
                &&& final(self)@.last_mouse == old(self)@.last_mouse
                &&& final(scene).objects@ == (match old(self)@.state {
                    Some(s) => placed_back(
                        old(scene).objects@,
                        records(s.originals + s.frozen),
                        records(s.originals + s.frozen).len(),
                    ),
                    None => old(scene).objects@,
                })
            },
            !cancel ==> {
                &&& r == (FrameEnd::Apply { confirm })
                &&& final(self)@ == old(self)@
                &&& final(scene).objects@ == old(scene).objects@
            },
    {
        if cancel {
            self.cancel(scene);
            FrameEnd::Cancelled
        } else {
            FrameEnd::Apply { confirm }
        }
    }

    /// Cancels the operator: puts every object back where it was when the
    /// operator started.
    pub fn cancel(&mut self, scene: &mut Scene)
        ensures
            final(self)@.state is None,
            final(self)@.last_mouse == old(self)@.last_mouse,
            final(scene).folders == old(scene).folders,
            final(scene).next_id == old(scene).next_id,
            final(scene).objects@ == (match old(self)@.state {
                Some(s) => placed_back(
                    old(scene).objects@,
                    records(s.originals + s.frozen),
                    records(s.originals + s.frozen).len(),
                ),
                None => old(scene).objects@,
            }),
    {
        match self.state.take() {
            Some(s) => {
                let mut writes: Vec<(ObjectId, Transform)> = Vec::new();
                let ghost all = s.originals@ + s.frozen@;
                let count: usize = s.originals.len();
                let mut n: usize = 0;
                while n < count
                    invariant
                        n <= count,
                        count == s.originals@.len(),
                        all == s.originals@ + s.frozen@,
                        writes@ == records(all).take(n as int),
                    decreases count - n,
                {
                    writes.push((s.originals[n].id, s.originals[n].local));
                    n += 1;
                    assert(writes@ =~= records(all).take(n as int));
                }
                let more: usize = s.frozen.len();
                let mut k: usize = 0;
                while k < more
                    invariant
                        k <= more,
                        more == s.frozen@.len(),
                        count == s.originals@.len(),
                        all == s.originals@ + s.frozen@,
                        writes@ == records(all).take(count + k),
                    decreases more - k,
                {
                    writes.push((s.frozen[k].id, s.frozen[k].local));
                    k += 1;
                    assert(writes@ =~= records(all).take(count + k));
                }
                assert(writes@ =~= records(all));
                write_locals(scene, &writes);
            },
            None => {},
        }
    }

    /// Confirms the operator: its objects stay where they are.
    pub fn confirm(&mut self)
        ensures
            final(self)@ == (TransformView { state: None, ..old(self)@ }),
    {
        self.state = None;
    }

    /// The value typed so far, where it is a number.
    pub fn numeric_value(&self) -> (r: Option<String>)
        ensures
            r is Some == (self@.state matches Some(s) && has_value(s.numeric)),
            r matches Some(text) ==> text@ == self@.state->0.numeric,
    {
        match &self.state {
            Some(s) => if holds_digit(&s.numeric) {
                Some(string_of(s.numeric.as_slice()))
            } else {
                None
            },
            None => None,
        }
    }

    /// The kind of the active operator.
    pub fn kind(&self) -> (r: Option<Kind>)
        ensures
            r == (match self@.state {
                Some(s) => Some(s.kind),
                None => None,
            }),
    {
        match &self.state {
            Some(s) => Some(s.kind),
            None => None,
        }
    }

    /// The constraint of the active operator.
    pub fn constraint(&self) -> (r: Option<Constraint>)
        ensures
            r == (match self@.state {
                Some(s) => Some(s.constraint),
                None => None,
            }),
    {
        match &self.state {
            Some(s) => Some(s.constraint),
            None => None,
        }
    }

    /// Is the control key held down over the active operator?
    pub fn ctrl(&self) -> (r: bool)
        ensures
            r == (self@.state matches Some(s) && s.snap),
    {
        match &self.state {
            Some(s) => s.snap,
            None => false,
        }
    }

    /// What was typed into the active operator.
    pub fn typed_text(&self) -> (r: String)
        ensures
            r@ == (match self@.state {
                Some(s) => s.numeric,
                None => ""@,
            }),
    {
        match &self.state {
            Some(s) => string_of(s.numeric.as_slice()),
            None => "".to_owned(),
        }
    }

    /// The objects that stay where they are in the world.
    pub fn frozen(&self) -> (r: Vec<OriginalEntry>)
        ensures
            r@ == (match self@.state {
                Some(s) => s.frozen,
                None => seq![],
            }),
    {
        let mut r: Vec<OriginalEntry> = Vec::new();
        match &self.state {
            Some(s) => {
                let mut n: usize = 0;
                while n < s.frozen.len()
                    invariant
                        n <= s.frozen@.len(),
                        r@ == s.frozen@.take(n as int),
                    decreases s.frozen@.len() - n,
                {
                    r.push(s.frozen[n]);
                    n += 1;
                    assert(r@ =~= s.frozen@.take(n as int));
                }
                assert(r@ =~= s.frozen@);
            },
            None => {
                assert(r@ =~= seq![]);
            },
        }
        r
    }

    /// The objects that the active operator transforms.
    pub fn originals(&self) -> (r: Vec<OriginalEntry>)
        ensures
            r@ == (match self@.state {
                Some(s) => s.originals,
                None => seq![],
            }),
    {
        let mut r: Vec<OriginalEntry> = Vec::new();
        match &self.state {
            Some(s) => {
                let mut n: usize = 0;
                while n < s.originals.len()
                    invariant
                        n <= s.originals@.len(),
                        r@ == s.originals@.take(n as int),
                    decreases s.originals@.len() - n,
                {
                    r.push(s.originals[n]);
                    n += 1;
                    assert(r@ =~= s.originals@.take(n as int));
                }
                assert(r@ =~= s.originals@);
            },
            None => {
                assert(r@ =~= seq![]);
            },
        }
        r
    }
}

/// The guide lines are drawn along the axes that the constraint leaves free,
/// each once; without a constraint there are none.
pub proof fn law_guides_show_the_free_axes(c: Constraint, axis: usize)
    requires
        has_axis(c),
        axis < 3,
    ensures
        c is Free ==> guide_axes(c).len() == 0,
        c is Axis ==> (guide_axes(c).contains(axis) <==> axis == c->Axis_0),
        c is Plane ==> (guide_axes(c).contains(axis) <==> axis != c->Plane_0),
        guide_axes(c).no_duplicates(),
{
    let axes = guide_axes(c);
    if axes.len() > 0 {
        assert(axes.contains(axes[0]));
        if axes.len() > 1 {
            assert(axes.contains(axes[1]));
        }
    }
}

/// The letter of an axis, as it is shown, leaves that axis out; typed small
/// it keeps to the axis.
pub proof fn law_letters_name_the_axes(i: usize)
    requires
        i < 3,
    ensures
        axis_letter(i).len() == 1,
        axis_of(axis_letter(i)[0]) == Some(Constraint::Plane(i)),
        axis_of((axis_letter(i)[0] as u32 + 32) as char) == Some(Constraint::Axis(i)),
{
    reveal_strlit("X");
    reveal_strlit("Y");
    reveal_strlit("Z");
}

/// Nothing but the six axis letters sets a constraint, and no letter sets
/// two.
pub proof fn law_letters_set_one_constraint(a: char, b: char)
    requires
        axis_of(a) is Some,
        axis_of(a) == axis_of(b),
    ensures
        a == b,
        !is_digit(a) && a != '.' && a != ',' && a != '-',
{
}

/// A typed digit stands last, and backspace takes it away again.
pub proof fn law_backspace_takes_back_a_digit(s: ModalView, c: char, text: Seq<char>, ctrl: bool)
    requires
        is_digit(c),
        text == seq![c],
    ensures
        after_text(s, text).numeric.len() == s.numeric.len() + 1,
        after_text(s, text).numeric.last() == c,
        state_after(
            after_text(s, text),
            ModalEvent::Key { key: ModalKey::Backspace, ctrl, handled: false },
        ).numeric == s.numeric,
        after_text(s, text).constraint == s.constraint,
{
    assert(s.numeric.push(c).drop_last() =~= s.numeric);
}

/// A comma is a decimal point, and a number has one at most.
pub proof fn law_comma_is_a_point(numeric: Seq<char>)
    ensures
        typed(numeric, ',') == typed(numeric, '.'),
        typed(numeric, '.').contains('.'),
        typed(typed(numeric, '.'), '.') == typed(numeric, '.'),
{
    let n = typed(numeric, '.');
    if !numeric.contains('.') {
        assert(n[numeric.len() as int] == '.');
    }
}

/// Events steer an operator; what it recorded when it started they leave.
pub proof fn law_events_leave_what_is_recorded(s: ModalView, event: ModalEvent)
    ensures
        ({
            let t = state_after(s, event);
            &&& t.kind == s.kind
            &&& t.originals == s.originals
            &&& t.frozen == s.frozen
            &&& t.pivot == s.pivot
            &&& t.start_mouse == s.start_mouse
            &&& event is Motion ==> t.cur_mouse == event->Motion_at && t.snap == event->Motion_ctrl
                && t.constraint == s.constraint && t.numeric == s.numeric
            &&& !(event is Motion) ==> t.cur_mouse == s.cur_mouse
            &&& !(event is Text) ==> t.constraint == s.constraint
            &&& event is Press || event is Release ==> t == s
        }),
{
}

/// An operator ends only by an event that reaches it: the left button or
/// Enter confirm, the right button or Escape cancel, and none does both.
pub proof fn law_operators_end_on_purpose(event: ModalEvent, active: bool)
    ensures
        ({
            let r = reply_to(event, active);
            &&& !(r.confirm && r.cancel)
            &&& r.confirm || r.cancel ==> active && r.handled
            &&& r.confirm <==> active && ((event is Press && !event->Press_handled
                && event->Press_button is Left) || (event is Key && !event->Key_handled
                && event->key is Enter))
            &&& r.cancel <==> active && ((event is Press && !event->Press_handled
                && event->Press_button is Right) || (event is Key && !event->Key_handled
                && event->key is Escape))
        }),
{
}

/// A running operator uses up every event but the middle button, which still
/// turns the view, and text that is not for it; without one nothing is used
/// up that was not before.
pub proof fn law_running_operator_takes_the_events(event: ModalEvent)
    ensures
        event is Motion || event is Key ==> reply_to(event, true).handled,
        event is Press ==> (reply_to(event, true).handled <==> event->Press_handled
            || event->Press_button is Left || event->Press_button is Right),
        event is Release ==> (reply_to(event, true).handled <==> event->Release_handled
            || event->Release_button is Left || event->Release_button is Right),
        event is Text ==> (reply_to(event, true).handled <==> !event->taken && event->text@.len()
            > 0),
        reply_to(event, false).handled <==> (event is Motion && event->Motion_handled) || (event
            is Press && event->Press_handled) || (event is Release && event->Release_handled) || (
        event is Key && event->Key_handled),
{
}

/// An object hangs on its parent, and on whatever its parent hangs on; one
/// without a parent hangs on nothing.
pub proof fn law_children_hang_on_their_parents(
    objects: Seq<Object>,
    id: ObjectId,
    above: ObjectId,
    steps: nat,
)
    ensures
        place_of(objects, id) matches Some(i) && objects[i].parent is Some ==> {
            let p = objects[place_of(objects, id)->0].parent->0;
            &&& hangs_on(objects, id, p, steps + 1)
            &&& hangs_on(objects, p, above, steps) ==> hangs_on(objects, id, above, steps + 1)
            &&& hangs_on(objects, id, above, steps + 1) ==> above == p || hangs_on(
                objects,
                p,
                above,
                steps,
            )
        },
        !exists_in(objects, id) ==> !hangs_on(objects, id, above, steps),
        (place_of(objects, id) matches Some(i) && objects[i].parent is None) ==> !hangs_on(
            objects,
            id,
            above,
            steps,
        ),
{
    lemma_place_of(objects, id);
}

/// The objects under a root are exactly those of the scene that hang on it,
/// the root itself left out.
pub proof fn law_subtrees_hold_what_hangs(
    objects: Seq<Object>,
    root: ObjectId,
    n: nat,
    id: ObjectId,
)
    requires
        n <= objects.len(),
    ensures
        hanging(objects, root, n).contains(id) <==> id != root && hangs_on(
            objects,
            id,
            root,
            objects.len(),
        ) && exists|k: int| 0 <= k < n && (#[trigger] objects[k]).id == id,
    decreases n,
{
    if n > 0 {
        law_subtrees_hold_what_hangs(objects, root, (n - 1) as nat, id);
        let before = hanging(objects, root, (n - 1) as nat);
        let now = hanging(objects, root, n);
        if before.contains(id) {
            let k = choose|k: int| 0 <= k < before.len() && before[k] == id;
            assert(now[k] == id);
        }
        if objects[n - 1].id == id && id != root && hangs_on(objects, id, root, objects.len()) {
            assert(now[before.len() as int] == id);
        }
        if now.contains(id) && !before.contains(id) {
            assert(objects[n - 1].id == id);
        }
    }
}

/// An object is as deep as it has ancestors in the scene: it has depth zero
/// just where it has none, and it is deeper than another whose ancestors are
/// among its own, where it has one more.
pub proof fn law_depth_counts_ancestors(objects: Seq<Object>, id: ObjectId, other: ObjectId, n: nat)
    requires
        n <= objects.len(),
        forall|k: int|
            0 <= k < objects.len() && hangs_on(
                objects,
                other,
                (#[trigger] objects[k]).id,
                objects.len(),
            ) ==> hangs_on(objects, id, objects[k].id, objects.len()),
    ensures
        depth_among(objects, id, n) == 0 <==> forall|k: int|
            0 <= k < n ==> !hangs_on(objects, id, (#[trigger] objects[k]).id, objects.len()),
        depth_among(objects, other, n) <= depth_among(objects, id, n) <= n,
        (exists|k: int|
            0 <= k < n && hangs_on(objects, id, (#[trigger] objects[k]).id, objects.len())
                && !hangs_on(objects, other, objects[k].id, objects.len())) ==> depth_among(
            objects,
            other,
            n,
        ) < depth_among(objects, id, n),
    decreases n,
{
    if n > 0 {
        law_depth_counts_ancestors(objects, id, other, (n - 1) as nat);
        let last = objects[n - 1];
        assert(hangs_on(objects, other, last.id, objects.len()) ==> hangs_on(
            objects,
            id,
            last.id,
            objects.len(),
        ));
    }
}

/// An object hangs on the selection where it hangs on some selected object.
pub proof fn law_hanging_on_the_selection(
    objects: Seq<Object>,
    id: ObjectId,
    selected: Seq<ObjectId>,
    n: nat,
)
    requires
        n <= selected.len(),
    ensures
        hangs_on_some(objects, id, selected, n) <==> exists|k: int|
            0 <= k < n && hangs_on(objects, id, #[trigger] selected[k], objects.len()),
    decreases n,
{
    if n > 0 {
        law_hanging_on_the_selection(objects, id, selected, (n - 1) as nat);
        if hangs_on(objects, id, selected[n - 1], objects.len()) {
            assert(hangs_on(objects, id, selected[n - 1], objects.len()));
        }
    }
}

/// `entries` has a record of this object.
pub open spec fn has_record(entries: Seq<OriginalEntry>, id: ObjectId) -> bool {
    exists|k: int| 0 <= k < entries.len() && (#[trigger] entries[k]).id == id
}

/// An operator records exactly the selected objects as what it transforms.
/// As what stays where it is it records the others that hang on them, unless
/// it is a move, which carries them along. Vertices are snapped to only on
/// visible objects that it does not carry.
pub proof fn law_operators_record_the_selection(
    objects: Seq<Object>,
    worlds: Seq<Transform>,
    selected: Seq<ObjectId>,
    n: nat,
    id: ObjectId,
)
    requires
        n <= objects.len(),
    ensures
        ({
            let listed = exists|k: int| 0 <= k < n && (#[trigger] objects[k]).id == id;
            let carried = exists|j: int|
                0 <= j < selected.len() && hangs_on(
                    objects,
                    id,
                    #[trigger] selected[j],
                    objects.len(),
                );
            &&& has_record(selected_entries(objects, worlds, selected, n), id) <==> listed
                && selected.contains(id)
            &&& has_record(following_entries(objects, worlds, selected, n), id) <==> listed
                && !selected.contains(id) && carried
            &&& snap_targets(objects, selected, n).contains(id) <==> !selected.contains(id)
                && !carried && exists|k: int|
                0 <= k < n && (#[trigger] objects[k]).id == id && objects[k].visible
        }),
    decreases n,
{
    law_hanging_on_the_selection(objects, id, selected, selected.len());
    if n > 0 {
        law_operators_record_the_selection(objects, worlds, selected, (n - 1) as nat, id);
        let last = objects[n - 1];
        let s0 = selected_entries(objects, worlds, selected, (n - 1) as nat);
        let s1 = selected_entries(objects, worlds, selected, n);
        let f0 = following_entries(objects, worlds, selected, (n - 1) as nat);
        let f1 = following_entries(objects, worlds, selected, n);
        let t0 = snap_targets(objects, selected, (n - 1) as nat);
        let t1 = snap_targets(objects, selected, n);
        if has_record(s0, id) {
            let k = choose|k: int| 0 <= k < s0.len() && (#[trigger] s0[k]).id == id;
            assert(s1[k].id == id);
        }
        if has_record(f0, id) {
            let k = choose|k: int| 0 <= k < f0.len() && (#[trigger] f0[k]).id == id;
            assert(f1[k].id == id);
        }
        if t0.contains(id) {
            let k = choose|k: int| 0 <= k < t0.len() && t0[k] == id;
            assert(t1[k] == id);
        }
        if has_record(s1, id) && !has_record(s0, id) {
            let k = choose|k: int| 0 <= k < s1.len() && (#[trigger] s1[k]).id == id;
            assert(k < s0.len() ==> s0[k].id == id);
        }
        if has_record(f1, id) && !has_record(f0, id) {
            let k = choose|k: int| 0 <= k < f1.len() && (#[trigger] f1[k]).id == id;
            assert(k < f0.len() ==> f0[k].id == id);
        }
        if last.id == id {
            if s1.len() > s0.len() {
                assert(s1[s0.len() as int].id == id);
            }
            if f1.len() > f0.len() {
                assert(f1[f0.len() as int].id == id);
            }
            if t1.len() > t0.len() {
                assert(t1[t0.len() as int] == id);
            }
        }
        if t1.contains(id) && !t0.contains(id) {
            assert(last.id == id);
        }
    }
}

/// A fresh operator is free and has nothing typed; the pointer has not moved.
/// Only a move leaves what hangs on the selection unrecorded.
pub proof fn law_operators_start_afresh(
    kind: Kind,
    objects: Seq<Object>,
    worlds: Seq<Transform>,
    selected: Seq<ObjectId>,
    pivot: Vec3,
    mouse: Mouse,
    i: int,
)
    ensures
        ({
            let s = started(kind, objects, worlds, selected, pivot, mouse);
            &&& s.constraint is Free && s.numeric.len() == 0 && !s.snap
            &&& s.start_mouse == s.cur_mouse && s.cur_mouse == mouse
            &&& s.pivot == pivot && s.kind == kind
            &&& kind is Grab ==> s.frozen.len() == 0
            &&& !(kind is Grab) ==> s.frozen == following_entries(
                objects,
                worlds,
                selected,
                objects.len(),
            )
        }),
        entry_at(objects, worlds, i).local == objects[i].transform,
        entry_at(objects, worlds, i).world == worlds[i],
        entry_at(objects, worlds, i).parent is Some <==> objects[i].parent is Some && exists_in(
            objects,
            objects[i].parent->0,
        ),
{
}

} // verus!
