//! The roof tool: a click places the first corner of a rectangle on the
//! floor, the roof follows the pointer, and a second click places the
//! opposite corner. Too small a rectangle leaves no roof.

use vstd::prelude::*;
use crate::modal::{Button, ModalKey, Mouse};
use crate::scalar::{larger, smaller, Scalar, Transform, Vec3};
use crate::scene::{
    lemma_place_of, place_of, primitives_equal, same_primitive, Object, ObjectId, Primitive, Scene,
};
use crate::selection::{Selection, SelectionView};

verus! {

/// A tenth of a meter: the least side of a roof.
pub const MIN_SIDE_BITS: u32 = 0x3dcc_cccd;

/// The rectangle between the first corner and a point of the floor.
#[derive(Clone, Copy, PartialEq, Eq, Structural, Debug)]
pub struct Fit {
    /// Its sides, without signs.
    pub size_x: Scalar,
    pub size_y: Scalar,
    /// Its middle, on the floor.
    pub center: Vec3,
    /// The height that a roof of this kind has by itself over the shorter
    /// side.
    pub height: Scalar,
    /// The roof stands at the middle already, as far as can be seen.
    pub at_rest: bool,
}

/// The roof tool.
#[derive(Debug)]
pub struct RoofTool {
    active: bool,
    kind: u32,
    pending: Option<(ObjectId, Vec3)>,
    last_mouse: Mouse,
    ctrl_down: bool,
    current: (Scalar, Scalar),
}

/// What a [`RoofTool`] holds.
pub struct RoofView {
    pub active: bool,
    pub kind: u32,
    /// The roof that is being drawn, and its first corner.
    pub pending: Option<(ObjectId, Vec3)>,
    pub mouse: Mouse,
    pub ctrl: bool,
    /// The sides of the rectangle.
    pub current: (Scalar, Scalar),
}

impl View for RoofTool {
    type V = RoofView;

    closed spec fn view(&self) -> RoofView {
        RoofView {
            active: self.active,
            kind: self.kind,
            pending: self.pending,
            mouse: self.last_mouse,
            ctrl: self.ctrl_down,
            current: self.current,
        }
    }
}

/// No sides.
pub open spec fn no_size() -> (Scalar, Scalar) {
    (Scalar { bits: 0 }, Scalar { bits: 0 })
}

/// A rectangle that leaves no roof.
pub open spec fn too_small(size: (Scalar, Scalar)) -> bool {
    smaller(size.0, size.1).less(Scalar { bits: MIN_SIDE_BITS })
}

/// The roof over a rectangle. Its ridge runs along the longer side.
pub open spec fn roof_over(kind: u32, overhang: Scalar, fit: Fit) -> Primitive {
    let width = larger(fit.size_x, Scalar { bits: MIN_SIDE_BITS });
    let depth = larger(fit.size_y, Scalar { bits: MIN_SIDE_BITS });
    Primitive::Roof {
        kind,
        width,
        depth,
        height: fit.height,
        overhang,
        ridge_x: depth.less(width) || depth.equal(width),
    }
}

/// An object fitted to a rectangle. Only a roof is, and only where it does
/// not fit already.
pub open spec fn fitted(o: Object, fit: Fit) -> Object {
    match o.primitive {
        Primitive::Roof { kind, overhang, .. } => {
            let wanted = roof_over(kind, overhang, fit);
            if primitives_equal(o.primitive, wanted) && fit.at_rest {
                o
            } else {
                Object {
                    primitive: wanted,
                    transform: Transform { location: fit.center, ..o.transform },
                    ..o
                }
            }
        },
        _ => o,
    }
}

/// The objects with one fitted to a rectangle.
pub open spec fn with_fitted(objects: Seq<Object>, id: ObjectId, fit: Fit) -> Seq<Object> {
    match place_of(objects, id) {
        Some(i) => objects.update(i, fitted(objects[i], fit)),
        None => objects,
    }
}

/// The objects without one.
pub open spec fn without_object(objects: Seq<Object>, id: ObjectId) -> Seq<Object> {
    match place_of(objects, id) {
        Some(i) => objects.remove(i),
        None => objects,
    }
}

/// The objects without one, where its rectangle is too small.
pub open spec fn unless_small(
    objects: Seq<Object>,
    id: ObjectId,
    size: (Scalar, Scalar),
) -> Seq<Object> {
    if too_small(size) {
        without_object(objects, id)
    } else {
        objects
    }
}

/// Something that happened. `handled` says that it was used up before.
#[derive(Clone, Copy, PartialEq, Eq, Structural, Debug)]
pub enum RoofEvent {
    Motion { at: Mouse, ctrl: bool },
    /// `over_ui` says that the pointer is over a panel.
    Press { button: Button, at: Mouse, ctrl: bool, handled: bool, over_ui: bool },
    Key { key: ModalKey, handled: bool },
    /// `taken` says that a text field has the keyboard.
    Text { empty: bool, taken: bool },
}

/// What an event asks for.
#[derive(Clone, Copy, PartialEq, Eq, Structural, Debug)]
pub struct RoofReply {
    /// The event is used up now.
    pub used: bool,
    pub place: Option<Mouse>,
    pub cancel: bool,
    pub finish: bool,
}

/// Nothing is asked for.
pub open spec fn no_reply() -> RoofReply {
    RoofReply { used: false, place: None, cancel: false, finish: false }
}

/// What an event asks for while the tool is active.
pub open spec fn roof_reply(event: RoofEvent) -> RoofReply {
    match event {
        RoofEvent::Motion { .. } => no_reply(),
        RoofEvent::Press { button, at, handled, over_ui, .. } => if handled || over_ui {
            no_reply()
        } else {
            match button {
                Button::Left => RoofReply { used: true, place: Some(at), ..no_reply() },
                Button::Right => RoofReply { used: true, cancel: true, ..no_reply() },
                Button::Middle => no_reply(),
            }
        },
        RoofEvent::Key { key, handled } => if handled {
            no_reply()
        } else {
            match key {
                ModalKey::Escape => RoofReply { used: true, cancel: true, ..no_reply() },
                ModalKey::Enter => RoofReply { used: true, finish: true, ..no_reply() },
                _ => no_reply(),
            }
        },
        RoofEvent::Text { empty, taken } => RoofReply { used: !empty && !taken, ..no_reply() },
    }
}

impl RoofTool {
    pub fn new() -> (r: RoofTool)
        ensures
            r@ == (RoofView {
                active: false,
                kind: 0,
                pending: None,
                mouse: Mouse { x: Scalar { bits: 0 }, y: Scalar { bits: 0 } },
                ctrl: false,
                current: no_size(),
            }),
    {
        RoofTool {
            active: false,
            kind: 0,
            pending: None,
            last_mouse: Mouse { x: Scalar { bits: 0 }, y: Scalar { bits: 0 } },
            ctrl_down: false,
            current: (Scalar { bits: 0 }, Scalar { bits: 0 }),
        }
    }

    /// Arms the tool for a kind of roof.
    pub fn start(&mut self, kind: u32)
        ensures
            final(self)@ == (RoofView {
                active: true,
                kind,
                pending: None,
                current: no_size(),
                ..old(self)@
            }),
    {
        self.active = true;
        self.kind = kind;
        self.pending = None;
        self.current = (Scalar { bits: 0 }, Scalar { bits: 0 });
    }

    pub fn active(&self) -> (r: bool)
        ensures
            r == self@.active,
    {
        self.active
    }

    /// Is a rectangle being drawn?
    pub fn drawing(&self) -> (r: bool)
        ensures
            r == (self@.pending is Some),
    {
        self.pending.is_some()
    }

    /// The roof that is being drawn, and its first corner.
    pub fn pending(&self) -> (r: Option<(ObjectId, Vec3)>)
        ensures
            r == self@.pending,
    {
        self.pending
    }

    /// Where the pointer is.
    pub fn mouse(&self) -> (r: Mouse)
        ensures
            r == self@.mouse,
    {
        self.last_mouse
    }

    /// Do corners snap to the grid? The control key turns the setting round.
    pub fn snaps(&self, snap_to_grid: bool) -> (r: bool)
        ensures
            r == (snap_to_grid != self@.ctrl),
    {
        snap_to_grid != self.ctrl_down
    }

    /// Cancels everything: the roof that is being drawn is removed.
    pub fn abort(&mut self, scene: &mut Scene)
        ensures
            final(self)@ == (RoofView { active: false, pending: None, ..old(self)@ }),
            final(scene).objects@ == (match old(self)@.pending {
                Some((id, _)) => without_object(old(scene).objects@, id),
                None => old(scene).objects@,
            }),
            final(scene).folders == old(scene).folders,
            final(scene).next_id == old(scene).next_id,
            old(scene).wf() ==> final(scene).wf(),
    {
        match self.pending.take() {
            Some((id, _)) => {
                proof {
                    lemma_place_of(scene.objects@, id);
                }
                let gone = scene.remove_object(id);
            },
            None => {},
        }
        self.active = false;
    }

    /// What is said of the tool, from the name of the kind of roof and the
    /// sides as they are shown.
    pub fn status_line(&self, kind: &str, width: &str, depth: &str) -> (r: Option<String>)
        ensures
            r is Some == self@.active,
            r matches Some(said) ==> said@ == (match self@.pending {
                None => "Roof ("@ + kind@
                    + "): click the floor to place the first corner   |   RMB/Esc cancel"@,
                Some(_) => "Roof ("@ + kind@ + "): "@ + width@ + " × "@ + depth@
                    + " · click to plant the opposite corner   |   Enter confirm · RMB/Esc cancel"@,
            }),
    {
        if !self.active {
            return None;
        }
        let mut said = "Roof (".to_owned();
        said.append(kind);
        if self.pending.is_none() {
            said.append("): click the floor to place the first corner   |   RMB/Esc cancel");
        } else {
            said.append("): ");
            said.append(width);
            said.append(" × ");
            said.append(depth);
            said.append(
                " · click to plant the opposite corner   |   Enter confirm · RMB/Esc cancel",
            );
        }
        Some(said)
    }

    /// Handles an event.
    pub fn handle_event(&mut self, event: RoofEvent) -> (r: RoofReply)
        ensures
            r == (if old(self)@.active {
                roof_reply(event)
            } else {
                no_reply()
            }),
            final(self)@ == (if !old(self)@.active {
                old(self)@
            } else {
                match event {
                    RoofEvent::Motion { at, ctrl } => RoofView { mouse: at, ctrl, ..old(self)@ },
                    RoofEvent::Press { at, ctrl, handled, over_ui, .. } => if handled || over_ui {
                        old(self)@
                    } else {
                        RoofView { mouse: at, ctrl, ..old(self)@ }
                    },
                    _ => old(self)@,
                }
            }),
    {
        let mut r = RoofReply { used: false, place: None, cancel: false, finish: false };
        if !self.active {
            return r;
        }
        match event {
            RoofEvent::Motion { at, ctrl } => {
                self.last_mouse = at;
                self.ctrl_down = ctrl;
            },
            RoofEvent::Press { button, at, ctrl, handled, over_ui } => {
                if !handled && !over_ui {
                    self.last_mouse = at;
                    self.ctrl_down = ctrl;
                    match button {
                        Button::Left => {
                            r.used = true;
                            r.place = Some(at);
                        },
                        Button::Right => {
                            r.used = true;
                            r.cancel = true;
                        },
                        Button::Middle => {},
                    }
                }
            },
            RoofEvent::Key { key, handled } => {
                if !handled {
                    match key {
                        ModalKey::Escape => {
                            r.used = true;
                            r.cancel = true;
                        },
                        ModalKey::Enter => {
                            r.used = true;
                            r.finish = true;
                        },
                        _ => {},
                    }
                }
            },
            RoofEvent::Text { empty, taken } => {
                r.used = !empty && !taken;
            },
        }
        r
    }

    /// Places the first corner. The new roof is small, and selected; `height`
    /// is what it has by itself.
    pub fn begin_rect(
        &mut self,
        scene: &mut Scene,
        selection: &mut Selection,
        blank: Object,
        anchor: Vec3,
        height: Scalar,
    ) -> (id: ObjectId)
        requires
            old(scene).wf(),
            old(scene).next_id < u64::MAX,
            old(selection)@.stamp < u64::MAX,
        ensures
            final(scene).wf(),
            final(scene).folders == old(scene).folders,
            id.0 == old(scene).next_id,
            !old(scene).has(id),
            final(scene).next_id == old(scene).next_id + 1,
            final(scene).objects@ == old(scene).objects@.push(
                Object {
                    id,
                    primitive: Primitive::Roof {
                        kind: old(self)@.kind,
                        width: Scalar { bits: MIN_SIDE_BITS },
                        depth: Scalar { bits: MIN_SIDE_BITS },
                        height,
                        overhang: Scalar { bits: 0 },
                        ridge_x: true,
                    },
                    transform: Transform { location: anchor, ..blank.transform },
                    ..blank
                },
            ),
            final(selection)@ == (SelectionView {
                selected: seq![id],
                active: Some(id),
                image: None,
                stamp: (old(selection)@.stamp + 1) as u64,
            }),
            final(self)@ == (RoofView {
                pending: Some((id, anchor)),
                current: no_size(),
                ..old(self)@
            }),
    {
        let mut roof = blank;
        roof.primitive = Primitive::Roof {
            kind: self.kind,
            width: Scalar { bits: MIN_SIDE_BITS },
            depth: Scalar { bits: MIN_SIDE_BITS },
            height,
            overhang: Scalar { bits: 0 },
            ridge_x: true,
        };
        roof.transform.location = anchor;
        let id = scene.insert_object(roof);
        let mut ids: Vec<ObjectId> = Vec::new();
        ids.push(id);
        assert(ids@ =~= seq![id]);
        selection.set(ids, Some(id));
        self.pending = Some((id, anchor));
        self.current = (Scalar { bits: 0 }, Scalar { bits: 0 });
        id
    }

    /// Fits the roof to the rectangle. A roof that fits already is not
    /// touched.
    pub fn update_rect(&mut self, scene: &mut Scene, id: ObjectId, fit: Fit)
        ensures
            final(self)@ == (RoofView { current: (fit.size_x, fit.size_y), ..old(self)@ }),
            final(scene).objects@ == with_fitted(old(scene).objects@, id, fit),
            final(scene).folders == old(scene).folders,
            final(scene).next_id == old(scene).next_id,
            old(scene).wf() ==> final(scene).wf(),
    {
        let ghost before = scene.objects@;
        self.current = (fit.size_x, fit.size_y);
        match scene.find(id) {
            Some(i) => {
                proof {
                    lemma_place_of(before, id);
                }
                match scene.objects[i].primitive {
                    Primitive::Roof { kind, overhang, .. } => {
                        let least = Scalar { bits: MIN_SIDE_BITS };
                        let width = fit.size_x.at_least(least);
                        let depth = fit.size_y.at_least(least);
                        let wanted = Primitive::Roof {
                            kind,
                            width,
                            depth,
                            height: fit.height,
                            overhang,
                            ridge_x: depth.is_less(width) || depth.is_equal(width),
                        };
                        if !(same_primitive(&scene.objects[i].primitive, &wanted) && fit.at_rest) {
                            scene.objects[i].primitive = wanted;
                            scene.objects[i].transform.location = fit.center;
                        }
                    },
                    _ => {},
                }
                assert(scene.objects@ =~= with_fitted(before, id, fit));
            },
            None => {},
        }
        assert(old(scene).wf() ==> scene.wf()) by {
            assert forall|j: int| 0 <= j < before.len() implies (#[trigger] scene.objects@[j]).id
                == before[j].id by {}
        }
    }

    /// Places the opposite corner, which ends the tool.
    pub fn place_second(&mut self, scene: &mut Scene, fit: Fit)
        requires
            old(scene).wf(),
        ensures
            final(scene).wf(),
            final(scene).folders == old(scene).folders,
            final(scene).next_id == old(scene).next_id,
            match old(self)@.pending {
                Some((id, _)) => {
                    &&& final(self)@ == (RoofView {
                        active: false,
                        pending: None,
                        current: (fit.size_x, fit.size_y),
                        ..old(self)@
                    })
                    &&& final(scene).objects@ == unless_small(
                        with_fitted(old(scene).objects@, id, fit),
                        id,
                        (fit.size_x, fit.size_y),
                    )
                },
                None => final(self)@ == old(self)@ && final(scene).objects@ == old(scene).objects@,
            },
    {
        match self.pending.take() {
            Some((id, _)) => {
                self.update_rect(scene, id, fit);
                self.drop_small(scene, id);
                self.active = false;
            },
            None => {},
        }
    }

    fn drop_small(&self, scene: &mut Scene, id: ObjectId)
        requires
            old(scene).wf(),
        ensures
            final(scene).wf(),
            final(scene).folders == old(scene).folders,
            final(scene).next_id == old(scene).next_id,
            final(scene).objects@ == unless_small(old(scene).objects@, id, self@.current),
    {
        if self.current.0.at_most(self.current.1).is_less(Scalar { bits: MIN_SIDE_BITS }) {
            proof {
                lemma_place_of(scene.objects@, id);
            }
            let gone = scene.remove_object(id);
        }
    }

    /// Ends the tool with what is drawn so far.
    pub fn finish(&mut self, scene: &mut Scene)
        requires
            old(scene).wf(),
        ensures
            final(scene).wf(),
            final(scene).folders == old(scene).folders,
            final(scene).next_id == old(scene).next_id,
            final(self)@ == (RoofView { active: false, pending: None, ..old(self)@ }),
            final(scene).objects@ == (match old(self)@.pending {
                Some((id, _)) => unless_small(old(scene).objects@, id, old(self)@.current),
                None => old(scene).objects@,
            }),
    {
        match self.pending.take() {
            Some((id, _)) => self.drop_small(scene, id),
            None => {},
        }
        self.active = false;
    }
}

/// Cancelling undoes the drawing: the first corner and a cancel leave the
/// objects as they were.
pub proof fn law_cancel_leaves_no_roof(objects: Seq<Object>, roof: Object, fit: Fit)
    requires
        place_of(objects, roof.id) is None,
    ensures
        without_object(with_fitted(objects.push(roof), roof.id, fit), roof.id) == objects,
{
    let drawn = objects.push(roof);
    lemma_place_of(objects, roof.id);
    lemma_place_of(drawn, roof.id);
    assert(drawn[objects.len() as int].id == roof.id);
    let i = place_of(drawn, roof.id)->0;
    if i < objects.len() {
        assert(objects[i].id == roof.id);
    }
    let fit_now = with_fitted(drawn, roof.id, fit);
    assert(fit_now[i].id == roof.id);
    lemma_place_of(fit_now, roof.id);
    let k = place_of(fit_now, roof.id)->0;
    if k < objects.len() {
        assert(fit_now[k] == objects[k]);
    }
    assert(without_object(fit_now, roof.id) =~= objects);
}

/// Fitting a roof to the same rectangle again changes nothing, once it stands
/// at its middle and its sides and height are numbers.
pub proof fn law_idle_frames_change_nothing(o: Object, fit: Fit)
    requires
        o.primitive is Roof,
        !o.primitive->overhang.nan(),
        !fit.height.nan(),
    ensures
        fitted(fitted(o, fit), Fit { at_rest: true, ..fit }) == fitted(o, fit),
{
}

/// A roof has the sides that were drawn, but never less than a tenth of a
/// meter, and its ridge runs along the longer one: along x where it is at
/// least as wide as it is deep.
pub proof fn law_ridges_run_along_the_longer_side(kind: u32, overhang: Scalar, fit: Fit)
    ensures
        ({
            let roof = roof_over(kind, overhang, fit);
            let least = Scalar { bits: MIN_SIDE_BITS };
            &&& roof is Roof
            &&& roof->Roof_kind == kind && roof->overhang == overhang
            &&& roof->Roof_height == fit.height
            &&& !roof->Roof_width.less(least) && !roof->Roof_depth.less(least)
            &&& least.less(fit.size_x) ==> roof->Roof_width == fit.size_x
            &&& least.less(fit.size_y) ==> roof->Roof_depth == fit.size_y
            &&& fit.size_x.less(least) ==> roof->Roof_width == least
            &&& fit.size_y.less(least) ==> roof->Roof_depth == least
            &&& roof->ridge_x <==> !roof->Roof_width.less(roof->Roof_depth)
        }),
{
}

/// A roof is too small where either of its sides is.
pub proof fn law_small_roofs_vanish(objects: Seq<Object>, id: ObjectId, size: (Scalar, Scalar))
    requires
        !size.0.nan(),
        !size.1.nan(),
    ensures
        ({
            let least = Scalar { bits: MIN_SIDE_BITS };
            let left = unless_small(objects, id, size);
            &&& !size.0.less(least) && !size.1.less(least) ==> left == objects
            &&& size.0.less(least) || size.1.less(least) ==> left == without_object(objects, id)
        }),
{
}

/// Taking an object out leaves all others, in order.
pub proof fn law_only_the_roof_goes(objects: Seq<Object>, id: ObjectId, i: int)
    requires
        0 <= i < objects.len(),
        objects[i].id != id,
    ensures
        without_object(objects, id).contains(objects[i]),
        without_object(objects, id).len() == objects.len() || without_object(objects, id).len() + 1
            == objects.len(),
{
    lemma_place_of(objects, id);
    if let Some(at) = place_of(objects, id) {
        let k = if i < at {
            i
        } else {
            i - 1
        };
        assert(without_object(objects, id)[k] == objects[i]);
    } else {
        assert(without_object(objects, id)[i] == objects[i]);
    }
}

/// Fitting a roof moves it to the middle of what was drawn, keeps its kind
/// and overhang, and touches no other object.
pub proof fn law_roofs_move_to_the_middle(objects: Seq<Object>, id: ObjectId, fit: Fit, i: int)
    requires
        0 <= i < objects.len(),
        place_of(objects, id) is Some,
    ensures
        ({
            let at = place_of(objects, id)->0;
            let now = with_fitted(objects, id, fit);
            &&& now.len() == objects.len()
            &&& i != at ==> now[i] == objects[i]
            &&& objects[at].primitive is Roof && !fit.at_rest ==> now[at].transform.location
                == fit.center && now[at].primitive == roof_over(
                objects[at].primitive->Roof_kind,
                objects[at].primitive->overhang,
                fit,
            )
            &&& now[at].id == objects[at].id && now[at].name == objects[at].name
            &&& now[at].transform.rotation == objects[at].transform.rotation
            &&& now[at].transform.scale == objects[at].transform.scale
            &&& !(objects[at].primitive is Roof) ==> now == objects
        }),
{
    lemma_place_of(objects, id);
    if !(objects[place_of(objects, id)->0].primitive is Roof) {
        assert(with_fitted(objects, id, fit) =~= objects);
    }
}

/// A click over the scene plants a corner where it is; the right button and
/// Escape cancel, Enter finishes, and no event does two of these. What is
/// handled elsewhere or over a panel is left alone.
pub proof fn law_roof_events_do_one_thing(event: RoofEvent)
    ensures
        ({
            let r = roof_reply(event);
            &&& r.place is Some <==> event is Press && event->button is Left
                && !event->Press_handled && !event->over_ui
            &&& r.place is Some ==> r.place == Some(event->Press_at)
            &&& r.cancel <==> (event is Press && event->button is Right && !event->Press_handled
                && !event->over_ui) || (event is Key && event->key is Escape
                && !event->Key_handled)
            &&& r.finish <==> event is Key && event->key is Enter && !event->Key_handled
            &&& r.place is Some || r.cancel || r.finish ==> r.used
            &&& event is Text ==> (r.used <==> !event->empty && !event->taken)
            &&& event is Motion ==> !r.used
        }),
{
}

} // verus!
