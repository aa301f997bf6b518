use modeler_app::scene::{ObjectId, Scene};
use modeler_app::selection::{Group, Selection};

#[test]
fn blender_click_rules() {
    let a = ObjectId(1);
    let b = ObjectId(2);
    let mut sel = Selection::default();

    sel.click(Some(a), false);
    assert_eq!(sel.selected(), &[a]);
    assert_eq!(sel.active(), Some(a));

    // shift-click extends and activates
    sel.click(Some(b), true);
    assert_eq!(sel.selected(), &[a, b]);
    assert_eq!(sel.active(), Some(b));

    // shift-click selected non-active object activates it
    sel.click(Some(a), true);
    assert_eq!(sel.active(), Some(a));
    assert_eq!(sel.selected().len(), 2);

    // shift-click active deselects it
    sel.click(Some(a), true);
    assert!(!sel.is_selected(a));
    assert_eq!(sel.active(), Some(b));

    // plain click on empty clears
    sel.click(None, false);
    assert!(sel.is_empty());
    assert_eq!(sel.active(), None);
}

#[test]
fn image_and_object_selection_are_mutually_exclusive() {
    let a = ObjectId(1);
    let mut sel = Selection::default();

    sel.click(Some(a), false);
    sel.select_image(7);
    assert_eq!(sel.image(), Some(7));
    assert!(sel.is_empty(), "selecting an image clears objects");
    assert_eq!(sel.active(), None);

    sel.click(Some(a), false);
    assert_eq!(sel.image(), None, "selecting an object clears the image");
    sel.select_image(7);
    sel.click(None, false);
    assert_eq!(sel.image(), None, "clicking empty space clears the image");

    sel.select_image(7);
    sel.clear_image();
    assert_eq!(sel.image(), None);
}

#[test]
fn clicking_a_group_part_selects_the_whole_group() {
    let root = ObjectId(1);
    let part = ObjectId(2);
    let loose = ObjectId(3);
    let group = || Some(Group { root, members: vec![root, part] });

    let mut sel = Selection::default();
    // hitting the PART selects root + part, root active
    sel.click_expanded(group(), Some(part), false);
    assert!(sel.is_selected(root) && sel.is_selected(part));
    assert_eq!(sel.active(), Some(root));

    // shift-click on a loose object extends; shift-click the group again
    // removes the whole group
    sel.click_expanded(None, Some(loose), true);
    assert_eq!(sel.selected().len(), 3);
    sel.click_expanded(group(), Some(part), true);
    assert_eq!(sel.selected(), &[loose]);

    // ungrouped: plain per-object click rules apply again
    sel.click_expanded(None, Some(part), false);
    assert_eq!(sel.selected(), &[part]);
    assert_eq!(sel.active(), Some(part));
}

#[test]
fn objects_that_are_gone_leave_the_selection() {
    let mut sel = Selection::default();
    sel.set(vec![ObjectId(4), ObjectId(5)], Some(ObjectId(5)));
    let stamp = sel.stamp();
    sel.retain_existing(&Scene::new());
    assert!(sel.is_empty());
    assert_eq!(sel.active(), None);
    assert_eq!(sel.stamp(), stamp + 1);
    // nothing left to drop: nothing changes
    sel.retain_existing(&Scene::new());
    assert_eq!(sel.stamp(), stamp + 1);
}

#[test]
fn a_shift_click_on_nothing_keeps_the_selection() {
    let mut sel = Selection::default();
    sel.click(Some(ObjectId(9)), false);
    sel.click(None, true);
    assert_eq!(sel.selected(), &[ObjectId(9)]);
}
