//! Selection state with the usual click rules. This is editor state, not
//! document state: it lives outside the scene and has its own change stamp.

use vstd::prelude::*;
use crate::scene::{ObjectId, Scene};

verus! {

/// The selected objects in order of selection, the active one, or a
/// selected reference image instead.
#[derive(Debug)]
pub struct Selection {
    selected: Vec<ObjectId>,
    active: Option<ObjectId>,
    image: Option<u64>,
    stamp: u64,
}

/// What a selection holds.
pub struct SelectionView {
    pub selected: Seq<ObjectId>,
    pub active: Option<ObjectId>,
    pub image: Option<u64>,
    pub stamp: u64,
}

/// A grouped assembly: its root and all its members, the root included.
#[derive(Debug)]
pub struct Group {
    pub root: ObjectId,
    pub members: Vec<ObjectId>,
}

/// The last of `ids`.
pub open spec fn last_of(ids: Seq<ObjectId>) -> Option<ObjectId> {
    if ids.len() == 0 {
        None
    } else {
        Some(ids.last())
    }
}

/// `ids` without those that are in `gone`, in the same order.
pub open spec fn without(ids: Seq<ObjectId>, gone: Seq<ObjectId>) -> Seq<ObjectId>
    decreases ids.len(),
{
    if ids.len() == 0 {
        seq![]
    } else {
        let before = without(ids.drop_last(), gone);
        if gone.contains(ids.last()) {
            before
        } else {
            before.push(ids.last())
        }
    }
}

/// `ids` without those that are not in the scene.
pub open spec fn existing(ids: Seq<ObjectId>, scene: Scene) -> Seq<ObjectId>
    decreases ids.len(),
{
    if ids.len() == 0 {
        seq![]
    } else {
        let before = existing(ids.drop_last(), scene);
        if scene.has(ids.last()) {
            before.push(ids.last())
        } else {
            before
        }
    }
}

impl SelectionView {
    /// A reference image is selected only while no object is.
    pub open spec fn exclusive(self) -> bool {
        self.image is Some ==> self.selected.len() == 0 && self.active is None
    }

    /// Nothing selected, at this stamp.
    pub open spec fn cleared(stamp: u64) -> SelectionView {
        SelectionView { selected: seq![], active: None, image: None, stamp }
    }

    /// The click rules: a plain click selects only what it hits, or clears
    /// on empty space; a shift-click extends, activates, or takes the active
    /// object out again.
    pub open spec fn clicked(self, hit: Option<ObjectId>, shift: bool) -> SelectionView {
        let stamp = (self.stamp + 1) as u64;
        match hit {
            Some(id) => if !shift {
                SelectionView { selected: seq![id], active: Some(id), image: None, stamp }
            } else if !self.selected.contains(id) {
                SelectionView {
                    selected: self.selected.push(id),
                    active: Some(id),
                    image: None,
                    stamp,
                }
            } else if self.active == Some(id) {
                let rest = without(self.selected, seq![id]);
                SelectionView { selected: rest, active: last_of(rest), image: None, stamp }
            } else {
                SelectionView { active: Some(id), image: None, stamp, ..self }
            },
            None => if shift {
                SelectionView { image: None, stamp, ..self }
            } else {
                SelectionView::cleared(stamp)
            },
        }
    }

    /// A click on a member of a group: plain, it selects the group with its
    /// root active; with shift it adds the group, or takes it out.
    pub open spec fn group_clicked(
        self,
        root: ObjectId,
        members: Seq<ObjectId>,
        shift: bool,
    ) -> SelectionView {
        let stamp = (self.stamp + 1) as u64;
        let rest = without(self.selected, members);
        if !shift {
            SelectionView { selected: members, active: Some(root), image: None, stamp }
        } else if self.selected.contains(root) {
            SelectionView {
                selected: rest,
                active: if self.active is Some && members.contains(self.active->0) {
                    last_of(rest)
                } else {
                    self.active
                },
                image: None,
                stamp,
            }
        } else {
            SelectionView { selected: rest + members, active: Some(root), image: None, stamp }
        }
    }

    /// The selection without objects that are not in the scene. The stamp
    /// grows if that changes how many are selected, or the active one.
    pub open spec fn retained(self, scene: Scene) -> SelectionView {
        let selected = existing(self.selected, scene);
        let active = if self.active is Some && !scene.has(self.active->0) {
            last_of(selected)
        } else {
            self.active
        };
        SelectionView {
            selected,
            active,
            image: self.image,
            stamp: if selected.len() != self.selected.len() || active != self.active {
                (self.stamp + 1) as u64
            } else {
                self.stamp
            },
        }
    }
}

impl View for Selection {
    type V = SelectionView;

    closed spec fn view(&self) -> SelectionView {
        SelectionView {
            selected: self.selected@,
            active: self.active,
            image: self.image,
            stamp: self.stamp,
        }
    }
}

impl Default for Selection {
    /// Nothing selected.
    fn default() -> (r: Selection)
        ensures
            r@ == SelectionView::cleared(0),
    {
        let r = Selection { selected: Vec::new(), active: None, image: None, stamp: 0 };
        assert(r@.selected =~= seq![]);
        r
    }
}

/// Is `id` one of `ids`?
pub(crate) fn contains(ids: &Vec<ObjectId>, id: ObjectId) -> (r: bool)
    ensures
        r == ids@.contains(id),
{
    let mut i: usize = 0;
    while i < ids.len()
        invariant
            i <= ids@.len(),
            forall|k: int| 0 <= k < i ==> ids@[k] != id,
        decreases ids@.len() - i,
    {
        if ids[i] == id {
            assert(ids@[i as int] == id);
            return true;
        }
        i += 1;
    }
    false
}

fn removed(ids: &Vec<ObjectId>, gone: &Vec<ObjectId>) -> (r: Vec<ObjectId>)
    ensures
        r@ == without(ids@, gone@),
{
    let mut r: Vec<ObjectId> = Vec::new();
    let mut i: usize = 0;
    while i < ids.len()
        invariant
            i <= ids@.len(),
            r@ == without(ids@.take(i as int), gone@),
        decreases ids@.len() - i,
    {
        let id = ids[i];
        if !contains(gone, id) {
            r.push(id);
        }
        i += 1;
        assert(ids@.take(i as int).drop_last() =~= ids@.take(i - 1));
        assert(ids@.take(i as int).last() == id);
    }
    assert(ids@.take(i as int) =~= ids@);
    r
}

fn last_id(ids: &Vec<ObjectId>) -> (r: Option<ObjectId>)
    ensures
        r == last_of(ids@),
{
    if ids.len() == 0 {
        None
    } else {
        Some(ids[ids.len() - 1])
    }
}

/// The same ids again.
pub(crate) fn copied(ids: &Vec<ObjectId>) -> (r: Vec<ObjectId>)
    ensures
        r@ == ids@,
{
    let mut r: Vec<ObjectId> = Vec::new();
    let mut i: usize = 0;
    while i < ids.len()
        invariant
            i <= ids@.len(),
            r@ == ids@.take(i as int),
        decreases ids@.len() - i,
    {
        r.push(ids[i]);
        i += 1;
        assert(ids@.take(i as int) =~= ids@.take(i - 1).push(ids@[i - 1]));
    }
    assert(ids@.take(i as int) =~= ids@);
    r
}

impl Selection {
    /// Grows with every change of the selection.
    pub fn stamp(&self) -> (r: u64)
        ensures
            r == self@.stamp,
    {
        self.stamp
    }

    /// The selected objects.
    pub fn selected(&self) -> (r: &Vec<ObjectId>)
        ensures
            r@ == self@.selected,
    {
        &self.selected
    }

    pub fn is_empty(&self) -> (r: bool)
        ensures
            r == (self@.selected.len() == 0),
    {
        self.selected.len() == 0
    }

    /// The active object.
    pub fn active(&self) -> (r: Option<ObjectId>)
        ensures
            r == self@.active,
    {
        self.active
    }

    pub fn is_selected(&self, id: ObjectId) -> (r: bool)
        ensures
            r == self@.selected.contains(id),
    {
        contains(&self.selected, id)
    }

    /// The selected reference image, if any.
    pub fn image(&self) -> (r: Option<u64>)
        ensures
            r == self@.image,
    {
        self.image
    }

    /// Selects a reference image, and no object.
    pub fn select_image(&mut self, id: u64)
        requires
            old(self)@.stamp < u64::MAX,
        ensures
            final(self)@ == (SelectionView {
                selected: seq![],
                active: None,
                image: Some(id),
                stamp: (old(self)@.stamp + 1) as u64,
            }),
            final(self)@.exclusive(),
    {
        self.selected = Vec::new();
        self.active = None;
        self.image = Some(id);
        self.stamp = self.stamp + 1;
        assert(self@.selected =~= seq![]);
    }

    /// Lets go of a selected reference image.
    pub fn clear_image(&mut self)
        requires
            old(self)@.stamp < u64::MAX,
        ensures
            final(self)@ == (SelectionView {
                image: None,
                stamp: if old(self)@.image is Some {
                    (old(self)@.stamp + 1) as u64
                } else {
                    old(self)@.stamp
                },
                ..old(self)@
            }),
            final(self)@.exclusive(),
    {
        if self.image.is_some() {
            self.image = None;
            self.stamp = self.stamp + 1;
        }
    }

    /// A click on an object, or on empty space.
    pub fn click(&mut self, hit: Option<ObjectId>, shift: bool)
        requires
            old(self)@.stamp < u64::MAX,
        ensures
            final(self)@ == old(self)@.clicked(hit, shift),
            final(self)@.exclusive(),
    {
        self.image = None;
        self.stamp = self.stamp + 1;
        match hit {
            Some(id) => {
                if !shift {
                    self.selected = vec![id];
                    self.active = Some(id);
                    assert(self@.selected =~= seq![id]);
                } else if !self.is_selected(id) {
                    self.selected.push(id);
                    self.active = Some(id);
                } else if self.active.is_some() && self.active.unwrap() == id {
                    let gone = vec![id];
                    assert(gone@ =~= seq![id]);
                    self.selected = removed(&self.selected, &gone);
                    self.active = last_id(&self.selected);
                } else {
                    self.active = Some(id);
                }
            },
            None => {
                if !shift {
                    self.selected = Vec::new();
                    self.active = None;
                    assert(self@.selected =~= seq![]);
                }
            },
        }
    }

    /// A viewport click: hitting any part of a grouped assembly acts on the
    /// whole group; otherwise the plain click rules hold. `group` is the
    /// group of the object hit, if it is in one.
    pub fn click_expanded(&mut self, group: Option<Group>, hit: Option<ObjectId>, shift: bool)
        requires
            old(self)@.stamp < u64::MAX,
        ensures
            final(self)@ == match group {
                Some(g) => old(self)@.group_clicked(g.root, g.members@, shift),
                None => old(self)@.clicked(hit, shift),
            },
            final(self)@.exclusive(),
    {
        match group {
            None => {
                self.click(hit, shift);
            },
            Some(g) => {
                let Group { root, members } = g;
                let was_selected = self.is_selected(root);
                self.image = None;
                self.stamp = self.stamp + 1;
                if !shift {
                    self.selected = members;
                    self.active = Some(root);
                } else if was_selected {
                    self.selected = removed(&self.selected, &members);
                    if self.active.is_some() && contains(&members, self.active.unwrap()) {
                        self.active = last_id(&self.selected);
                    }
                } else {
                    let mut all = removed(&self.selected, &members);
                    let mut members = members;
                    all.append(&mut members);
                    self.selected = all;
                    self.active = Some(root);
                }
            },
        }
    }

    /// Replaces the whole selection.
    pub fn set(&mut self, ids: Vec<ObjectId>, active: Option<ObjectId>)
        requires
            old(self)@.stamp < u64::MAX,
        ensures
            final(self)@ == (SelectionView {
                selected: ids@,
                active,
                image: None,
                stamp: (old(self)@.stamp + 1) as u64,
            }),
            final(self)@.exclusive(),
    {
        self.selected = ids;
        self.active = active;
        self.image = None;
        self.stamp = self.stamp + 1;
    }

    /// Drops references to objects that are not in the scene.
    pub fn retain_existing(&mut self, scene: &Scene)
        requires
            old(self)@.stamp < u64::MAX,
        ensures
            final(self)@ == old(self)@.retained(*scene),
            old(self)@.exclusive() ==> final(self)@.exclusive(),
    {
        let mut kept: Vec<ObjectId> = Vec::new();
        let mut i: usize = 0;
        while i < self.selected.len()
            invariant
                i <= self.selected@.len(),
                *self == *old(self),
                kept@ == existing(self.selected@.take(i as int), *scene),
            decreases self.selected@.len() - i,
        {
            let id = self.selected[i];
            if scene.contains(id) {
                kept.push(id);
            }
            i += 1;
            assert(self.selected@.take(i as int).drop_last() =~= self.selected@.take(i - 1));
            assert(self.selected@.take(i as int).last() == id);
        }
        assert(self.selected@.take(i as int) =~= self.selected@);
        let before = self.selected.len();
        self.selected = kept;
        let mut changed = self.selected.len() != before;
        if let Some(active) = self.active {
            if !scene.contains(active) {
                let next = last_id(&self.selected);
                if next.is_none() || next.unwrap() != active {
                    changed = true;
                }
                self.active = next;
            }
        }
        if changed {
            self.stamp = self.stamp + 1;
        }
        proof {
            lemma_existing_len(old(self).selected@, *scene);
        }
    }
}

proof fn lemma_existing_len(ids: Seq<ObjectId>, scene: Scene)
    ensures
        existing(ids, scene).len() <= ids.len(),
    decreases ids.len(),
{
    if ids.len() > 0 {
        lemma_existing_len(ids.drop_last(), scene);
    }
}

proof fn lemma_without_absent(ids: Seq<ObjectId>, id: ObjectId)
    requires
        !ids.contains(id),
    ensures
        without(ids, seq![id]) == ids,
    decreases ids.len(),
{
    if ids.len() > 0 {
        assert forall|k: int| 0 <= k < ids.drop_last().len() implies ids.drop_last()[k] != id by {
            assert(ids[k] == ids.drop_last()[k]);
            assert(ids.contains(ids[k]));
        }
        lemma_without_absent(ids.drop_last(), id);
        assert(ids.contains(ids[ids.len() - 1]));
        assert(!seq![id].contains(ids.last()));
        assert(ids.drop_last().push(ids.last()) =~= ids);
    }
}

/// Shift-clicking an object that is not selected and then once more leaves
/// the selected objects as they were, the last of them active.
pub proof fn law_shift_click_toggles(v: SelectionView, id: ObjectId)
    requires
        !v.selected.contains(id),
    ensures
        v.clicked(Some(id), true).selected == v.selected.push(id),
        v.clicked(Some(id), true).active == Some(id),
        v.clicked(Some(id), true).clicked(Some(id), true).selected == v.selected,
        v.clicked(Some(id), true).clicked(Some(id), true).active == last_of(v.selected),
{
    let once = v.clicked(Some(id), true);
    assert(once.selected[v.selected.len() as int] == id);
    assert(once.selected.contains(id));
    lemma_without_absent(v.selected, id);
    assert(once.selected.drop_last() =~= v.selected);
    assert(seq![id][0] == id);
    assert(seq![id].contains(id));
}

/// Whatever is clicked, no reference image stays selected beside objects.
pub proof fn law_image_excludes_objects(v: SelectionView, hit: Option<ObjectId>, shift: bool, root:
    ObjectId, members: Seq<ObjectId>, scene: Scene)
    requires
        v.exclusive(),
    ensures
        v.clicked(hit, shift).image is None,
        v.group_clicked(root, members, shift).image is None,
        v.retained(scene).exclusive(),
{
    lemma_existing_len(v.selected, scene);
}

/// After the selection is held against a scene, everything selected exists.
pub proof fn law_retained_exists(v: SelectionView, scene: Scene, i: int)
    requires
        0 <= i < v.retained(scene).selected.len(),
    ensures
        scene.has(v.retained(scene).selected[i]),
        v.retained(scene).active is Some ==> scene.has(v.retained(scene).active->0),
{
    lemma_existing_exists(v.selected, scene);
}

proof fn lemma_existing_exists(ids: Seq<ObjectId>, scene: Scene)
    ensures
        forall|i: int|
            0 <= i < existing(ids, scene).len() ==> scene.has(#[trigger] existing(ids, scene)[i]),
    decreases ids.len(),
{
    if ids.len() > 0 {
        lemma_existing_exists(ids.drop_last(), scene);
        let before = existing(ids.drop_last(), scene);
        let now = existing(ids, scene);
        assert forall|i: int| 0 <= i < now.len() implies scene.has(#[trigger] now[i]) by {
            if i < before.len() {
                assert(now[i] == before[i]);
            }
        }
    }
}

proof fn lemma_without(ids: Seq<ObjectId>, gone: Seq<ObjectId>, id: ObjectId)
    ensures
        without(ids, gone).contains(id) <==> ids.contains(id) && !gone.contains(id),
        without(ids, gone).len() > 0 ==> ids.contains(without(ids, gone).last()) && !gone.contains(
            without(ids, gone).last(),
        ),
    decreases ids.len(),
{
    if ids.len() > 0 {
        let rest = ids.drop_last();
        let before = without(rest, gone);
        let now = without(ids, gone);
        let last = ids[ids.len() - 1];
        assert(ids.last() == last);
        lemma_without(rest, gone, id);
        if rest.contains(id) {
            let k = choose|k: int| 0 <= k < rest.len() && rest[k] == id;
            assert(ids[k] == id);
        }
        if before.len() > 0 {
            let k = choose|k: int| 0 <= k < rest.len() && rest[k] == before.last();
            assert(ids[k] == before.last());
        }
        if before.contains(id) {
            let k = choose|k: int| 0 <= k < before.len() && before[k] == id;
            assert(now[k] == id);
        }
        if now.contains(id) && !before.contains(id) {
            assert(id == last);
        }
        if !gone.contains(last) {
            assert(now[before.len() as int] == last);
        }
        if ids.contains(id) && !rest.contains(id) {
            let k = choose|k: int| 0 <= k < ids.len() && ids[k] == id;
            if k < rest.len() {
                assert(rest[k] == id);
            }
        }
    }
}

/// The active object is one of the selected.
pub open spec fn active_is_selected(v: SelectionView) -> bool {
    v.active matches Some(a) ==> v.selected.contains(a)
}

/// A click without shift selects what it hits and nothing else; with shift it
/// touches nothing but what it hits. Missing everything, it clears the
/// selection, or leaves it.
pub proof fn law_clicks_select_what_they_hit(
    v: SelectionView,
    hit: ObjectId,
    other: ObjectId,
    shift: bool,
)
    requires
        other != hit,
    ensures
        v.clicked(Some(hit), false).selected.contains(hit),
        !v.clicked(Some(hit), false).selected.contains(other),
        v.clicked(Some(hit), false).active == Some(hit),
        v.clicked(Some(hit), true).selected.contains(other) <==> v.selected.contains(other),
        v.clicked(None, false).selected.len() == 0 && v.clicked(None, false).active is None,
        v.clicked(None, true).selected == v.selected && v.clicked(None, true).active == v.active,
        v.clicked(Some(hit), shift).stamp == (v.stamp + 1) as u64,
{
    lemma_without(v.selected, seq![hit], other);
    let one = v.clicked(Some(hit), false).selected;
    assert(one[0] == hit);
    let now = v.clicked(Some(hit), true).selected;
    if v.selected.contains(other) {
        let k = choose|k: int| 0 <= k < v.selected.len() && v.selected[k] == other;
        if !v.selected.contains(hit) {
            assert(now[k] == other);
        }
    }
    assert(!seq![hit].contains(other));
}

/// Clicking again, with shift, on an object that is selected but not active
/// makes it active; on the active one it takes it out.
pub proof fn law_second_click_activates_then_drops(v: SelectionView, id: ObjectId)
    requires
        v.selected.contains(id),
    ensures
        v.active != Some(id) ==> v.clicked(Some(id), true).active == Some(id) && v.clicked(
            Some(id),
            true,
        ).selected == v.selected,
        v.active == Some(id) ==> !v.clicked(Some(id), true).selected.contains(id) && v.clicked(
            Some(id),
            true,
        ).active != Some(id),
{
    lemma_without(v.selected, seq![id], id);
    assert(seq![id][0] == id);
    assert(seq![id].contains(id));
}

/// Whatever is clicked, the active object is one of the selected, if it was
/// before; and so for whole groups, which have their root active.
pub proof fn law_active_object_is_selected(
    v: SelectionView,
    hit: Option<ObjectId>,
    root: ObjectId,
    members: Seq<ObjectId>,
    shift: bool,
)
    requires
        active_is_selected(v),
        members.contains(root),
    ensures
        active_is_selected(v.clicked(hit, shift)),
        active_is_selected(v.group_clicked(root, members, shift)),
{
    if let Some(id) = hit {
        let now = v.clicked(hit, shift).selected;
        lemma_without(v.selected, seq![id], id);
        if !shift {
            assert(now[0] == id);
        } else if !v.selected.contains(id) {
            assert(now[v.selected.len() as int] == id);
        } else if now.len() > 0 {
            assert(now.contains(now[now.len() - 1]));
        }
    }
    let rest = without(v.selected, members);
    lemma_without(v.selected, members, root);
    if rest.len() > 0 {
        assert(rest.contains(rest[rest.len() - 1]));
    }
    let k = choose|k: int| 0 <= k < members.len() && members[k] == root;
    assert((rest + members)[rest.len() + k] == root);
    if let Some(a) = v.active {
        lemma_without(v.selected, members, a);
    }
}

/// A group is selected or dropped as a whole, and what is not of it stays as
/// it was where shift is held.
pub proof fn law_groups_are_clicked_as_one(
    v: SelectionView,
    root: ObjectId,
    members: Seq<ObjectId>,
    id: ObjectId,
)
    requires
        members.contains(root),
    ensures
        v.group_clicked(root, members, false).selected == members,
        v.group_clicked(root, members, false).active == Some(root),
        members.contains(id) ==> (v.group_clicked(root, members, true).selected.contains(id)
            <==> !v.selected.contains(root)),
        !members.contains(id) ==> (v.group_clicked(root, members, true).selected.contains(id)
            <==> v.selected.contains(id)),
{
    lemma_without(v.selected, members, id);
    let rest = without(v.selected, members);
    let both = rest + members;
    if members.contains(id) {
        let k = choose|k: int| 0 <= k < members.len() && members[k] == id;
        assert(both[rest.len() + k] == id);
    }
    if rest.contains(id) {
        let k = choose|k: int| 0 <= k < rest.len() && rest[k] == id;
        assert(both[k] == id);
    }
    if both.contains(id) {
        let k = choose|k: int| 0 <= k < both.len() && both[k] == id;
        if k < rest.len() {
            assert(rest[k] == id);
        } else {
            assert(members[k - rest.len()] == id);
        }
    }
}

/// What is still in the scene stays selected.
pub proof fn law_existing_objects_stay_selected(v: SelectionView, scene: Scene, id: ObjectId)
    ensures
        v.retained(scene).selected.contains(id) <==> v.selected.contains(id) && scene.has(id),
        v.retained(scene).image == v.image,
        v.active is Some && scene.has(v.active->0) ==> v.retained(scene).active == v.active,
        v.active is None ==> v.retained(scene).active is None,
{
    lemma_existing(v.selected, scene, id);
}

proof fn lemma_existing(ids: Seq<ObjectId>, scene: Scene, id: ObjectId)
    ensures
        existing(ids, scene).contains(id) <==> ids.contains(id) && scene.has(id),
    decreases ids.len(),
{
    if ids.len() > 0 {
        let rest = ids.drop_last();
        let before = existing(rest, scene);
        let now = existing(ids, scene);
        let last = ids[ids.len() - 1];
        assert(ids.last() == last);
        lemma_existing(rest, scene, id);
        if rest.contains(id) {
            let k = choose|k: int| 0 <= k < rest.len() && rest[k] == id;
            assert(ids[k] == id);
        }
        if before.contains(id) {
            let k = choose|k: int| 0 <= k < before.len() && before[k] == id;
            assert(now[k] == id);
        }
        if now.contains(id) && !before.contains(id) {
            assert(id == last);
        }
        if scene.has(last) {
            assert(now[before.len() as int] == last);
        }
        if ids.contains(id) && !rest.contains(id) {
            let k = choose|k: int| 0 <= k < ids.len() && ids[k] == id;
            if k < rest.len() {
                assert(rest[k] == id);
            }
        }
    }
}

} // verus!
