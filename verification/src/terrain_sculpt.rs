//! The sculpt tool: brush strokes on the selected terrain.
//!
//! Every dab counts the terrain's sculpting up, which the renderer follows;
//! its mesh is counted up once, at the end of a stroke, so that the physics
//! is not rebuilt in the middle of one.

use vstd::prelude::*;
use crate::modal::{Button, ModalKey, Mouse};
use crate::scalar::{clamped, Scalar, Vec3};
use crate::scene::{lemma_place_of, place_of, Object, ObjectId, Primitive, Scene};

verus! {

#[derive(Clone, Copy, PartialEq, Eq, Structural, Debug)]
pub enum BrushMode {
    Raise,
    Lower,
    Smooth,
    Flatten,
}

/// Eight: the radius of the brush at first, in meters.
pub const FIRST_RADIUS_BITS: u32 = 0x4100_0000;

/// Six tenths: the strength and the softness of the brush at first.
pub const FIRST_STRENGTH_BITS: u32 = 0x3f19_999a;

/// A tenth of a second: what a frame counts for at most, so that a hitch does
/// not gouge the terrain.
pub const LONGEST_FRAME_BITS: u32 = 0x3dcc_cccd;

/// The sculpt tool.
#[derive(Debug)]
pub struct SculptTool {
    active: bool,
    target: Option<ObjectId>,
    pub mode: BrushMode,
    pub radius: Scalar,
    pub strength: Scalar,
    pub falloff: Scalar,
    stroking: bool,
    hover: Option<Vec3>,
    last_mouse: Mouse,
    flatten_target: Scalar,
    ctrl_down: bool,
}

/// What a [`SculptTool`] holds.
pub struct SculptView {
    pub active: bool,
    pub target: Option<ObjectId>,
    pub mode: BrushMode,
    pub radius: Scalar,
    pub strength: Scalar,
    pub falloff: Scalar,
    /// The button is down.
    pub stroking: bool,
    /// The point of the terrain under the pointer.
    pub hover: Option<Vec3>,
    pub mouse: Mouse,
    /// The height that flattening pulls towards.
    pub flatten_target: Scalar,
    pub ctrl: bool,
}

impl View for SculptTool {
    type V = SculptView;

    closed spec fn view(&self) -> SculptView {
        SculptView {
            active: self.active,
            target: self.target,
            mode: self.mode,
            radius: self.radius,
            strength: self.strength,
            falloff: self.falloff,
            stroking: self.stroking,
            hover: self.hover,
            mouse: self.last_mouse,
            flatten_target: self.flatten_target,
            ctrl: self.ctrl_down,
        }
    }
}

/// The object is a terrain.
pub open spec fn is_terrain(objects: Seq<Object>, id: ObjectId) -> bool {
    place_of(objects, id) matches Some(i) && objects[i].primitive is Terrain
}

/// The objects with the mesh of one counted up.
pub open spec fn with_mesh_bumped(objects: Seq<Object>, target: Option<ObjectId>) -> Seq<Object> {
    match target {
        Some(id) => match place_of(objects, id) {
            Some(i) => objects.update(
                i,
                Object { mesh_revision: (objects[i].mesh_revision + 1) as u64, ..objects[i] },
            ),
            None => objects,
        },
        None => objects,
    }
}

/// The counts of the target can be counted up.
pub open spec fn can_count(objects: Seq<Object>, target: Option<ObjectId>) -> bool {
    target matches Some(id) ==> (place_of(objects, id) matches Some(i) ==> objects[i].mesh_revision
        < u64::MAX && objects[i].sculpt_revision < u64::MAX)
}

/// The mode in force: the control key swaps raising and lowering.
pub open spec fn mode_in_force(mode: BrushMode, ctrl: bool) -> BrushMode {
    match mode {
        BrushMode::Raise => if ctrl {
            BrushMode::Lower
        } else {
            mode
        },
        BrushMode::Lower => if ctrl {
            BrushMode::Raise
        } else {
            mode
        },
        _ => mode,
    }
}

/// Something that happened. `handled` says that it was used up before.
#[derive(Clone, Copy, PartialEq, Eq, Structural, Debug)]
pub enum SculptEvent {
    Motion { at: Mouse, ctrl: bool },
    /// `over_ui` says that the pointer is over a panel.
    Press { button: Button, at: Mouse, ctrl: bool, handled: bool, over_ui: bool },
    Release { button: Button },
    Key { key: ModalKey, handled: bool },
    /// `taken` says that a text field has the keyboard.
    Text { empty: bool, taken: bool },
}

/// What an event did.
#[derive(Clone, Copy, PartialEq, Eq, Structural, Debug)]
pub struct SculptReply {
    /// The event is used up now.
    pub used: bool,
    /// The tool is to be left.
    pub exit: bool,
}

/// What an event does while the tool is active.
pub open spec fn sculpt_reply(v: SculptView, event: SculptEvent) -> SculptReply {
    match event {
        SculptEvent::Motion { .. } => SculptReply { used: false, exit: false },
        SculptEvent::Press { button, handled, over_ui, .. } => {
            let counts = !handled && !over_ui;
            SculptReply {
                used: counts && !(button is Middle),
                exit: counts && button is Right,
            }
        },
        SculptEvent::Release { button } => SculptReply {
            used: button is Left && v.stroking,
            exit: false,
        },
        SculptEvent::Key { key, handled } => {
            let leaves = key is Escape && !handled;
            SculptReply { used: leaves, exit: leaves }
        },
        SculptEvent::Text { empty, taken } => SculptReply { used: !empty && !taken, exit: false },
    }
}

/// The tool after an event, while it is active.
pub open spec fn sculpt_after(v: SculptView, event: SculptEvent) -> SculptView {
    match event {
        SculptEvent::Motion { at, ctrl } => SculptView { mouse: at, ctrl, ..v },
        SculptEvent::Press { button, at, ctrl, handled, over_ui } => {
            let strokes = button is Left && !handled && !over_ui;
            SculptView {
                mouse: at,
                ctrl,
                stroking: v.stroking || strokes,
                flatten_target: match v.hover {
                    Some(hit) => if strokes {
                        hit.z
                    } else {
                        v.flatten_target
                    },
                    None => v.flatten_target,
                },
                ..v
            }
        },
        SculptEvent::Release { button } => if button is Left {
            SculptView { stroking: false, ..v }
        } else {
            v
        },
        _ => v,
    }
}

/// What is to be done with the sculpting of a terrain before a dab: it has
/// the resolution of the terrain.
#[derive(Clone, Copy, PartialEq, Eq, Structural, Debug)]
pub enum LayerStep {
    Keep,
    Resample { resolution: u32 },
    Create { resolution: u32 },
}

/// The resolution within the bounds that is nearest.
pub open spec fn within(resolution: u32, least: u32, most: u32) -> u32 {
    if resolution < least {
        least
    } else if resolution > most {
        most
    } else {
        resolution
    }
}

/// What is to be done with the sculpting of a terrain before a dab.
pub fn layer_step(had: Option<u32>, resolution: u32, least: u32, most: u32) -> (r: LayerStep)
    ensures
        r == (match had {
            Some(now) => if now == within(resolution, least, most) {
                LayerStep::Keep
            } else {
                LayerStep::Resample { resolution: within(resolution, least, most) }
            },
            None => LayerStep::Create { resolution: within(resolution, least, most) },
        }),
{
    let wanted: u32 = if resolution < least {
        least
    } else if resolution > most {
        most
    } else {
        resolution
    };
    match had {
        Some(now) => if now == wanted {
            LayerStep::Keep
        } else {
            LayerStep::Resample { resolution: wanted }
        },
        None => LayerStep::Create { resolution: wanted },
    }
}

impl SculptTool {
    pub fn new() -> (r: SculptTool)
        ensures
            r@ == (SculptView {
                active: false,
                target: None,
                mode: BrushMode::Raise,
                radius: Scalar { bits: FIRST_RADIUS_BITS },
                strength: Scalar { bits: FIRST_STRENGTH_BITS },
                falloff: Scalar { bits: FIRST_STRENGTH_BITS },
                stroking: false,
                hover: None,
                mouse: Mouse { x: Scalar { bits: 0 }, y: Scalar { bits: 0 } },
                flatten_target: Scalar { bits: 0 },
                ctrl: false,
            }),
    {
        SculptTool {
            active: false,
            target: None,
            mode: BrushMode::Raise,
            radius: Scalar { bits: FIRST_RADIUS_BITS },
            strength: Scalar { bits: FIRST_STRENGTH_BITS },
            falloff: Scalar { bits: FIRST_STRENGTH_BITS },
            stroking: false,
            hover: None,
            last_mouse: Mouse { x: Scalar { bits: 0 }, y: Scalar { bits: 0 } },
            flatten_target: Scalar { bits: 0 },
            ctrl_down: false,
        }
    }

    /// Arms the tool on a terrain.
    pub fn start(&mut self, target: ObjectId)
        ensures
            final(self)@ == (SculptView {
                active: true,
                target: Some(target),
                stroking: false,
                hover: None,
                ..old(self)@
            }),
    {
        self.active = true;
        self.target = Some(target);
        self.stroking = false;
        self.hover = None;
    }

    pub fn active(&self) -> (r: bool)
        ensures
            r == self@.active,
    {
        self.active
    }

    /// The terrain, while the tool is active.
    pub fn target(&self) -> (r: Option<ObjectId>)
        ensures
            r == (if self@.active {
                self@.target
            } else {
                None
            }),
    {
        if self.active {
            self.target
        } else {
            None
        }
    }

    /// Is a stroke on its way?
    pub fn stroking(&self) -> (r: bool)
        ensures
            r == (self@.active && self@.stroking),
    {
        self.active && self.stroking
    }

    /// The point of the terrain under the pointer, and the height that
    /// flattening pulls towards.
    pub fn hover(&self) -> (r: (Option<Vec3>, Scalar))
        ensures
            r == (self@.hover, self@.flatten_target),
    {
        (self.hover, self.flatten_target)
    }

    /// Where the pointer is.
    pub fn mouse(&self) -> (r: Mouse)
        ensures
            r == self@.mouse,
    {
        self.last_mouse
    }

    /// Ends a stroke: the mesh of the terrain is counted up.
    pub fn finish_stroke(&mut self, scene: &mut Scene)
        requires
            can_count(old(scene).objects@, old(self)@.target),
        ensures
            final(self)@ == (SculptView { stroking: false, ..old(self)@ }),
            final(scene).objects@ == with_mesh_bumped(old(scene).objects@, old(self)@.target),
            final(scene).folders == old(scene).folders,
            final(scene).next_id == old(scene).next_id,
    {
        let ghost before = scene.objects@;
        self.stroking = false;
        match self.target {
            Some(id) => match scene.find(id) {
                Some(i) => {
                    scene.objects[i].mesh_revision = scene.objects[i].mesh_revision + 1;
                    assert(scene.objects@ =~= with_mesh_bumped(before, Some(id)));
                },
                None => {},
            },
            None => {},
        }
    }

    /// Leaves the tool. A stroke that is cut short ends.
    pub fn abort(&mut self, scene: &mut Scene)
        requires
            can_count(old(scene).objects@, old(self)@.target),
        ensures
            final(self)@ == (SculptView { active: false, stroking: false, hover: None, ..old(self)@ }),
            final(scene).objects@ == (if old(self)@.stroking {
                with_mesh_bumped(old(scene).objects@, old(self)@.target)
            } else {
                old(scene).objects@
            }),
            final(scene).folders == old(scene).folders,
            final(scene).next_id == old(scene).next_id,
    {
        if self.stroking {
            self.finish_stroke(scene);
        }
        self.active = false;
        self.hover = None;
    }

    /// What is said of the tool, from the name of the mode, that name in
    /// small letters, and the radius as it is shown.
    pub fn status_line(&self, mode: &str, small_mode: &str, radius: &str) -> (r: Option<String>)
        ensures
            r is Some == self@.active,
            r matches Some(said) ==> said@ == "Sculpt ("@ + mode@ + "): drag to "@ + small_mode@
                + " · radius "@ + radius@ + " · Ctrl inverts raise/lower   |   Esc/RMB done"@,
    {
        if !self.active {
            return None;
        }
        let mut said = "Sculpt (".to_owned();
        said.append(mode);
        said.append("): drag to ");
        said.append(small_mode);
        said.append(" · radius ");
        said.append(radius);
        said.append(" · Ctrl inverts raise/lower   |   Esc/RMB done");
        Some(said)
    }

    /// The mode in force.
    pub fn effective_mode(&self) -> (r: BrushMode)
        ensures
            r == mode_in_force(self@.mode, self@.ctrl),
    {
        match (self.mode, self.ctrl_down) {
            (BrushMode::Raise, true) => BrushMode::Lower,
            (BrushMode::Lower, true) => BrushMode::Raise,
            (mode, _) => mode,
        }
    }

    /// Begins a frame: puts the tool away where its terrain is gone. Says
    /// whether it is still active.
    pub fn begin_frame(&mut self, scene: &Scene) -> (r: bool)
        ensures
            r == final(self)@.active,
            final(self)@ == (if !old(self)@.active {
                old(self)@
            } else {
                match old(self)@.target {
                    None => SculptView { active: false, ..old(self)@ },
                    Some(id) => if is_terrain(scene.objects@, id) {
                        old(self)@
                    } else {
                        SculptView { active: false, stroking: false, ..old(self)@ }
                    },
                }
            }),
    {
        if !self.active {
            return false;
        }
        match self.target {
            None => {
                self.active = false;
            },
            Some(id) => {
                let there = match scene.find(id) {
                    Some(i) => matches!(scene.objects[i].primitive, Primitive::Terrain { .. }),
                    None => false,
                };
                if !there {
                    self.active = false;
                    self.stroking = false;
                }
            },
        }
        self.active
    }

    /// Handles an event.
    pub fn handle_event(&mut self, event: SculptEvent, scene: &mut Scene) -> (r: SculptReply)
        requires
            can_count(old(scene).objects@, old(self)@.target),
        ensures
            !old(self)@.active ==> {
                &&& r == (SculptReply { used: false, exit: false })
                &&& final(self)@ == old(self)@
                &&& final(scene).objects@ == old(scene).objects@
            },
            old(self)@.active ==> {
                &&& r == sculpt_reply(old(self)@, event)
                &&& final(self)@ == sculpt_after(old(self)@, event)
                &&& final(scene).objects@ == (if event is Release && r.used {
                    with_mesh_bumped(old(scene).objects@, old(self)@.target)
                } else {
                    old(scene).objects@
                })
            },
            final(scene).folders == old(scene).folders,
            final(scene).next_id == old(scene).next_id,
    {
        let mut r = SculptReply { used: false, exit: false };
        if !self.active {
            return r;
        }
        match event {
            SculptEvent::Motion { at, ctrl } => {
                self.last_mouse = at;
                self.ctrl_down = ctrl;
            },
            SculptEvent::Press { button, at, ctrl, handled, over_ui } => {
                self.last_mouse = at;
                self.ctrl_down = ctrl;
                if !handled && !over_ui {
                    match button {
                        Button::Left => {
                            self.stroking = true;
                            match self.hover {
                                Some(hit) => {
                                    self.flatten_target = hit.z;
                                },
                                None => {},
                            }
                            r.used = true;
                        },
                        Button::Right => {
                            r.used = true;
                            r.exit = true;
                        },
                        Button::Middle => {},
                    }
                }
            },
            SculptEvent::Release { button } => {
                if button == Button::Left && self.stroking {
                    self.finish_stroke(scene);
                    r.used = true;
                }
            },
            SculptEvent::Key { key, handled } => {
                if key == ModalKey::Escape && !handled {
                    r.used = true;
                    r.exit = true;
                }
            },
            SculptEvent::Text { empty, taken } => {
                r.used = !empty && !taken;
            },
        }
        r
    }

    /// Takes the point of the terrain under the pointer. Says where to dab,
    /// while a stroke is on its way.
    pub fn point_at(&mut self, hover: Option<Vec3>) -> (r: Option<Vec3>)
        ensures
            final(self)@ == (SculptView { hover, ..old(self)@ }),
            r == (if old(self)@.stroking {
                hover
            } else {
                None
            }),
    {
        self.hover = hover;
        if self.stroking {
            hover
        } else {
            None
        }
    }

    /// The seconds that a frame counts for.
    pub fn dab_time(dt: Scalar) -> (r: Scalar)
        ensures
            r == clamped(dt, Scalar { bits: 0 }, Scalar { bits: LONGEST_FRAME_BITS }),
    {
        dt.held_between(Scalar { bits: 0 }, Scalar { bits: LONGEST_FRAME_BITS })
    }

    /// Does this mode read the surface as it is?
    pub fn reads_surface(mode: BrushMode) -> (r: bool)
        ensures
            r == (mode is Smooth || mode is Flatten),
    {
        matches!(mode, BrushMode::Smooth | BrushMode::Flatten)
    }

    /// Records a dab: only the sculpting of the terrain is counted up.
    pub fn apply_dab(&self, scene: &mut Scene, target: ObjectId)
        requires
            can_count(old(scene).objects@, Some(target)),
        ensures
            final(scene).objects@ == (if is_terrain(old(scene).objects@, target) {
                let i = place_of(old(scene).objects@, target)->0;
                let o = old(scene).objects@[i];
                old(scene).objects@.update(
                    i,
                    Object { sculpt_revision: (o.sculpt_revision + 1) as u64, ..o },
                )
            } else {
                old(scene).objects@
            }),
            final(scene).folders == old(scene).folders,
            final(scene).next_id == old(scene).next_id,
    {
        let ghost before = scene.objects@;
        match scene.find(target) {
            Some(i) => {
                if matches!(scene.objects[i].primitive, Primitive::Terrain { .. }) {
                    scene.objects[i].sculpt_revision = scene.objects[i].sculpt_revision + 1;
                    assert(scene.objects@ =~= before.update(
                        i as int,
                        Object {
                            sculpt_revision: (before[i as int].sculpt_revision + 1) as u64,
                            ..before[i as int]
                        },
                    ));
                }
            },
            None => {},
        }
    }
}

/// A dab leaves the mesh of every object as it was, so that the physics is
/// not rebuilt in the middle of a stroke.
pub proof fn law_dabs_keep_the_mesh(objects: Seq<Object>, target: ObjectId, k: int)
    requires
        0 <= k < objects.len(),
        is_terrain(objects, target),
    ensures
        ({
            let i = place_of(objects, target)->0;
            let o = objects[i];
            let dabbed = objects.update(
                i,
                Object { sculpt_revision: (o.sculpt_revision + 1) as u64, ..o },
            );
            dabbed[k].mesh_revision == objects[k].mesh_revision
        }),
{
    lemma_place_of(objects, target);
}

/// The control key turns a mode round, and turning twice changes nothing.
pub proof fn law_control_key_inverts(mode: BrushMode)
    ensures
        mode_in_force(mode_in_force(mode, true), true) == mode,
        mode_in_force(mode, false) == mode,
        mode_in_force(mode, true) != mode <==> mode is Raise || mode is Lower,
{
}

/// A stroke begins with the left button over the terrain and ends when it is
/// let go; nothing else starts or ends one.
pub proof fn law_strokes_follow_the_button(v: SculptView, event: SculptEvent)
    ensures
        ({
            let after = sculpt_after(v, event);
            &&& !v.stroking && after.stroking <==> !v.stroking && event is Press
                && event->Press_button is Left && !event->Press_handled && !event->over_ui
            &&& v.stroking && !after.stroking <==> v.stroking && event is Release
                && event->Release_button is Left
            &&& after.active == v.active && after.target == v.target && after.mode == v.mode
            &&& after.radius == v.radius && after.strength == v.strength && after.falloff
                == v.falloff && after.hover == v.hover
            &&& event is Motion ==> after.mouse == event->Motion_at && after.ctrl
                == event->Motion_ctrl
        }),
{
}

/// Flattening pulls towards the height under the pointer where the stroke
/// began, through the whole stroke.
pub proof fn law_flattening_keeps_its_height(v: SculptView, event: SculptEvent)
    ensures
        !(event is Press) ==> sculpt_after(v, event).flatten_target == v.flatten_target,
        event is Press && event->Press_button is Left && !event->Press_handled && !event->over_ui
            && v.hover is Some ==> sculpt_after(v, event).flatten_target == v.hover->0.z,
        v.hover is None ==> sculpt_after(v, event).flatten_target == v.flatten_target,
{
}

/// The control key turns raising into lowering and back, and leaves the
/// other brushes as they are.
pub proof fn law_control_turns_the_brush_round(mode: BrushMode)
    ensures
        mode_in_force(mode, false) == mode,
        mode_in_force(BrushMode::Raise, true) is Lower,
        mode_in_force(BrushMode::Lower, true) is Raise,
        mode_in_force(mode_in_force(mode, true), true) == mode,
        mode is Smooth || mode is Flatten ==> mode_in_force(mode, true) == mode,
{
}

/// Sculpting is left by the right button or Escape, and by no event that is
/// not for it.
pub proof fn law_sculpting_is_left_on_purpose(v: SculptView, event: SculptEvent)
    ensures
        ({
            let r = sculpt_reply(v, event);
            &&& r.exit <==> (event is Press && event->Press_button is Right
                && !event->Press_handled && !event->over_ui) || (event is Key && event->key
                is Escape && !event->Key_handled)
            &&& r.exit ==> r.used
            &&& event is Press && event->Press_button is Middle ==> !r.used
            &&& event is Release ==> (r.used <==> event->Release_button is Left && v.stroking)
        }),
{
}

/// A stroke that ends has the mesh of its terrain made anew, and touches no
/// other object.
pub proof fn law_strokes_renew_the_terrain(objects: Seq<Object>, id: ObjectId, i: int)
    requires
        0 <= i < objects.len(),
        can_count(objects, Some(id)),
    ensures
        with_mesh_bumped(objects, Some(id)).len() == objects.len(),
        place_of(objects, id) != Some(i) ==> with_mesh_bumped(objects, Some(id))[i] == objects[i],
        place_of(objects, id) == Some(i) ==> with_mesh_bumped(objects, Some(id))[i] == (Object {
            mesh_revision: (objects[i].mesh_revision + 1) as u64,
            ..objects[i]
        }) && with_mesh_bumped(objects, Some(id))[i].mesh_revision == objects[i].mesh_revision + 1,
        with_mesh_bumped(objects, None) == objects,
{
    lemma_place_of(objects, id);
}

/// A resolution is kept within its limits, and as it is where it lies there.
pub proof fn law_resolutions_are_within_limits(resolution: u32, least: u32, most: u32)
    requires
        least <= most,
    ensures
        least <= within(resolution, least, most) <= most,
        least <= resolution <= most ==> within(resolution, least, most) == resolution,
        within(within(resolution, least, most), least, most) == within(resolution, least, most),
{
}

} // verus!
