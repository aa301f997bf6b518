//! Small pictures of library assets: a picture with a depth for each pixel,
//! in which the nearest surface wins, written as a PNG file in text form.

use vstd::prelude::*;
use crate::images::{
    base64_bytes, base64_encode, base64_text, decodes_to, encode_png, fits_text, png_file,
};
use crate::scalar::{Scalar, INFINITY_BITS};
use crate::scene::{place_of, Object, ObjectId};

verus! {

/// The width and the height of a picture.
pub const PREVIEW_SIZE: u32 = 128;

/// The number of its pixels.
pub const PIXEL_COUNT: usize = 16384;

/// A piece of a surface that covers one pixel.
#[derive(Clone, Copy, PartialEq, Eq, Structural, Debug)]
pub struct Fragment {
    pub x: u32,
    pub y: u32,
    /// How far it is from the eye.
    pub z: Scalar,
    pub r: u8,
    pub g: u8,
    pub b: u8,
}

impl Fragment {
    /// It lies within the picture.
    pub open spec fn inside(self) -> bool {
        self.x < PREVIEW_SIZE && self.y < PREVIEW_SIZE
    }

    /// The pixel that it covers.
    pub open spec fn pixel(self) -> int {
        self.y as int * PREVIEW_SIZE as int + self.x as int
    }
}

/// A picture that is being drawn.
#[derive(Debug)]
pub struct Canvas {
    rgba: Vec<u8>,
    depth: Vec<Scalar>,
}

/// What a [`Canvas`] holds: for each pixel its four bytes, and how far the
/// surface is that it shows.
#[verifier::ext_equal]
pub struct CanvasView {
    pub rgba: Seq<u8>,
    pub depth: Seq<Scalar>,
}

impl View for Canvas {
    type V = CanvasView;

    closed spec fn view(&self) -> CanvasView {
        CanvasView { rgba: self.rgba@, depth: self.depth@ }
    }
}

impl CanvasView {
    pub open spec fn wf(self) -> bool {
        self.rgba.len() == 4 * PIXEL_COUNT && self.depth.len() == PIXEL_COUNT
    }

    /// The picture with one more fragment. It is seen only where it is nearer
    /// than what the pixel shows.
    pub open spec fn plotted(self, f: Fragment) -> CanvasView {
        let i = f.pixel();
        if f.z.less(self.depth[i]) {
            CanvasView {
                rgba: self.rgba.update(4 * i, f.r).update(4 * i + 1, f.g).update(
                    4 * i + 2,
                    f.b,
                ).update(4 * i + 3, 255),
                depth: self.depth.update(i, f.z),
            }
        } else {
            self
        }
    }
}

/// The empty picture: transparent, with nothing in sight.
pub open spec fn empty_canvas() -> CanvasView {
    CanvasView {
        rgba: Seq::new((4 * PIXEL_COUNT) as nat, |i: int| 0u8),
        depth: Seq::new(PIXEL_COUNT as nat, |i: int| Scalar { bits: INFINITY_BITS }),
    }
}

/// The picture of the first `n` fragments.
pub open spec fn picture_of(fragments: Seq<Fragment>, n: nat) -> CanvasView
    decreases n,
{
    if n == 0 {
        empty_canvas()
    } else {
        picture_of(fragments, (n - 1) as nat).plotted(fragments[n - 1])
    }
}

/// The text is a PNG file of the picture; there is none where it cannot be
/// written, or where the text would be longer than a string can be.
pub open spec fn is_file_of(text: Option<String>, rgba: Seq<u8>) -> bool {
    match png_file(PREVIEW_SIZE, PREVIEW_SIZE, rgba) {
        Some(bytes) => {
            &&& text is Some == fits_text(bytes.len())
            &&& text matches Some(t) ==> t@ == base64_text(bytes) && base64_bytes(t@) == Some(bytes)
                && decodes_to(bytes, PREVIEW_SIZE, PREVIEW_SIZE, rgba)
        },
        None => text is None,
    }
}

impl Canvas {
    pub fn new() -> (r: Canvas)
        ensures
            r@ == empty_canvas(),
            r@.wf(),
    {
        let mut rgba: Vec<u8> = Vec::new();
        let mut depth: Vec<Scalar> = Vec::new();
        let mut n: usize = 0;
        while n < PIXEL_COUNT
            invariant
                n <= PIXEL_COUNT,
                rgba@.len() == 4 * n,
                depth@.len() == n,
                forall|i: int| 0 <= i < rgba@.len() ==> #[trigger] rgba@[i] == 0,
                forall|i: int|
                    0 <= i < n ==> #[trigger] depth@[i] == (Scalar { bits: INFINITY_BITS }),
            decreases PIXEL_COUNT - n,
        {
            rgba.push(0);
            rgba.push(0);
            rgba.push(0);
            rgba.push(0);
            depth.push(Scalar { bits: INFINITY_BITS });
            n += 1;
        }
        let r = Canvas { rgba, depth };
        assert(r@ =~= empty_canvas());
        r
    }

    /// Draws a fragment.
    pub fn plot(&mut self, f: Fragment)
        requires
            old(self)@.wf(),
            f.inside(),
        ensures
            final(self)@ == old(self)@.plotted(f),
            final(self)@.wf(),
    {
        let i: usize = f.y as usize * PREVIEW_SIZE as usize + f.x as usize;
        if f.z.is_less(self.depth[i]) {
            self.depth.set(i, f.z);
            self.rgba.set(4 * i, f.r);
            self.rgba.set(4 * i + 1, f.g);
            self.rgba.set(4 * i + 2, f.b);
            self.rgba.set(4 * i + 3, 255);
        }
    }

    /// The picture as a PNG file in text form; nothing where it cannot be
    /// written, or where the text would be longer than a string can be.
    pub fn encode(self) -> (r: Option<String>)
        requires
            self@.wf(),
        ensures
            is_file_of(r, self@.rgba),
    {
        match encode_png(PREVIEW_SIZE, PREVIEW_SIZE, self.rgba) {
            Some(bytes) => {
                let most: usize = isize::MAX as usize - 4;
                if bytes.len() / 3 <= most / 4 {
                    Some(base64_encode(bytes.as_slice()))
                } else {
                    None
                }
            },
            None => None,
        }
    }
}

/// The objects up from object `i`: itself, the object it hangs on, and so on,
/// as far as they are in the list. Nothing where they hang on each other in a
/// circle.
pub open spec fn chain(objects: Seq<Object>, i: int, steps: nat) -> Option<Seq<int>>
    decreases steps,
{
    if steps == 0 {
        None
    } else {
        let above = match objects[i].parent {
            Some(p) => place_of(objects, p),
            None => None,
        };
        match above {
            Some(j) => match chain(objects, j, (steps - 1) as nat) {
                Some(rest) => Some(seq![i] + rest),
                None => None,
            },
            None => Some(seq![i]),
        }
    }
}

fn place_in(objects: &Vec<Object>, id: ObjectId) -> (r: Option<usize>)
    ensures
        r matches Some(i) ==> place_of(objects@, id) == Some(i as int) && i < objects@.len(),
        r is None ==> place_of(objects@, id) is None,
{
    let mut n: usize = 0;
    while n < objects.len()
        invariant
            n <= objects@.len(),
            forall|j: int| 0 <= j < n ==> (#[trigger] objects@[j]).id != id,
        decreases objects@.len() - n,
    {
        if objects[n].id == id {
            proof {
                crate::scene::lemma_place_found(objects@, id, n as int);
            }
            return Some(n);
        }
        n += 1;
    }
    proof {
        crate::scene::lemma_place_of(objects@, id);
    }
    None
}

/// The objects whose placements make up that of object `i` within a list of
/// objects, from itself up.
pub fn local_world(objects: &Vec<Object>, i: usize) -> (r: Option<Vec<usize>>)
    requires
        i < objects@.len(),
    ensures
        r is Some == (chain(objects@, i as int, objects@.len()) is Some),
        r matches Some(up) ==> up@.map_values(|k: usize| k as int) == chain(
            objects@,
            i as int,
            objects@.len(),
        )->0,
{
    let mut up: Vec<usize> = Vec::new();
    let mut at: usize = i;
    let mut steps: usize = objects.len();
    let ghost whole = chain(objects@, i as int, objects@.len());
    assert(up@.map_values(|k: usize| k as int) =~= seq![]);
    assert(whole is Some ==> seq![] + whole->0 =~= whole->0);
    while steps > 0
        invariant
            steps <= objects@.len(),
            at < objects@.len(),
            whole == chain(objects@, i as int, objects@.len()),
            whole == (match chain(objects@, at as int, steps as nat) {
                Some(rest) => Some(up@.map_values(|k: usize| k as int) + rest),
                None => None,
            }),
        decreases steps,
    {
        let ghost before = up@.map_values(|k: usize| k as int);
        up.push(at);
        assert(up@.map_values(|k: usize| k as int) =~= before.push(at as int));
        let above = match objects[at].parent {
            Some(p) => place_in(objects, p),
            None => None,
        };
        match above {
            Some(j) => {
                let ghost rest = chain(objects@, j as int, (steps - 1) as nat);
                assert(rest is Some ==> before + (seq![at as int] + rest->0) =~= before.push(
                    at as int,
                ) + rest->0);
                at = j;
                steps = steps - 1;
            },
            None => {
                assert(before + seq![at as int] =~= before.push(at as int));
                return Some(up);
            },
        }
    }
    None
}

/// The places of the visible ones among the first `n` objects.
pub open spec fn visible_in(objects: Seq<Object>, n: nat) -> Seq<usize>
    decreases n,
{
    if n == 0 {
        seq![]
    } else if objects[n - 1].visible {
        visible_in(objects, (n - 1) as nat).push((n - 1) as usize)
    } else {
        visible_in(objects, (n - 1) as nat)
    }
}

/// The objects that a picture shows.
pub fn shown_objects(objects: &Vec<Object>) -> (r: Vec<usize>)
    ensures
        r@ == visible_in(objects@, objects@.len()),
{
    let mut r: Vec<usize> = Vec::new();
    let mut n: usize = 0;
    while n < objects.len()
        invariant
            n <= objects@.len(),
            r@ == visible_in(objects@, n as nat),
        decreases objects@.len() - n,
    {
        if objects[n].visible {
            r.push(n);
        }
        n += 1;
    }
    r
}

/// Some visible object has triangles to draw.
pub open spec fn shows_something(objects: Seq<Object>, triangles: Seq<usize>) -> bool {
    exists|i: int|
        0 <= i < objects.len() && (#[trigger] objects[i]).visible && triangles[i] > 0
}

/// The preview of an asset, drawn on `canvas`, as a PNG file in text form.
/// `triangles` tells how many each object has. There is none where nothing
/// visible was drawn.
pub fn asset_preview(canvas: Canvas, objects: &Vec<Object>, triangles: &Vec<usize>) -> (r: Option<
    String,
>)
    requires
        canvas@.wf(),
        triangles@.len() == objects@.len(),
    ensures
        !shows_something(objects@, triangles@) ==> r is None,
        shows_something(objects@, triangles@) ==> is_file_of(r, canvas@.rgba),
{
    let mut n: usize = 0;
    while n < objects.len()
        invariant
            n <= objects@.len(),
            triangles@.len() == objects@.len(),
            canvas@.wf(),
            forall|i: int|
                0 <= i < n ==> !((#[trigger] objects@[i]).visible && triangles@[i] > 0),
        decreases objects@.len() - n,
    {
        if objects[n].visible && triangles[n] > 0 {
            assert(objects@[n as int].visible);
            return canvas.encode();
        }
        n += 1;
    }
    None
}

/// The nearest surface wins: no fragment of a pixel is nearer than what the
/// pixel shows, in whatever order they came.
pub proof fn law_nearest_fragment_wins(fragments: Seq<Fragment>, n: nat, k: int)
    requires
        0 <= k < n <= fragments.len(),
        forall|i: int| 0 <= i < fragments.len() ==> (#[trigger] fragments[i]).inside(),
    ensures
        !fragments[k].z.less(picture_of(fragments, n).depth[fragments[k].pixel()]),
        picture_of(fragments, n).wf(),
    decreases n,
{
    lemma_picture_fits(fragments, (n - 1) as nat);
    lemma_picture_fits(fragments, n);
    assert(fragments[k].inside());
    assert(fragments[n - 1].inside());
    if k < n - 1 {
        law_nearest_fragment_wins(fragments, (n - 1) as nat, k);
    }
}

proof fn lemma_picture_fits(fragments: Seq<Fragment>, n: nat)
    requires
        n <= fragments.len(),
        forall|i: int| 0 <= i < fragments.len() ==> (#[trigger] fragments[i]).inside(),
    ensures
        picture_of(fragments, n).wf(),
    decreases n,
{
    if n > 0 {
        lemma_picture_fits(fragments, (n - 1) as nat);
        assert(fragments[n - 1].inside());
    }
}

/// The pixel is as this fragment is.
pub open spec fn is_painted(c: CanvasView, i: int, f: Fragment) -> bool {
    &&& f.pixel() == i
    &&& c.depth[i] == f.z
    &&& c.rgba[4 * i] == f.r
    &&& c.rgba[4 * i + 1] == f.g
    &&& c.rgba[4 * i + 2] == f.b
    &&& c.rgba[4 * i + 3] == 255
}

/// Every pixel shows one of the fragments that fall on it, in its color and
/// opaque, or nothing at all where none does.
pub proof fn law_pixels_show_fragments(fragments: Seq<Fragment>, n: nat, i: int)
    requires
        n <= fragments.len(),
        forall|k: int| 0 <= k < fragments.len() ==> (#[trigger] fragments[k]).inside(),
        0 <= i < PIXEL_COUNT,
    ensures
        picture_of(fragments, n).wf(),
        ({
            let c = picture_of(fragments, n);
            ||| exists|k: int| 0 <= k < n && is_painted(c, i, #[trigger] fragments[k])
            ||| c.depth[i].bits == INFINITY_BITS && c.rgba[4 * i] == 0 && c.rgba[4 * i + 1] == 0
                && c.rgba[4 * i + 2] == 0 && c.rgba[4 * i + 3] == 0
        }),
    decreases n,
{
    if n > 0 {
        law_pixels_show_fragments(fragments, (n - 1) as nat, i);
        let before = picture_of(fragments, (n - 1) as nat);
        let now = picture_of(fragments, n);
        let f = fragments[n - 1];
        assert(f.inside());
        let at = f.pixel();
        assert(0 <= at < PIXEL_COUNT);
        if f.z.less(before.depth[at]) && at == i {
            assert(is_painted(now, i, fragments[n - 1]));
        } else {
            assert(now.depth[i] == before.depth[i]);
            assert(now.rgba[4 * i] == before.rgba[4 * i]);
            assert(now.rgba[4 * i + 1] == before.rgba[4 * i + 1]);
            assert(now.rgba[4 * i + 2] == before.rgba[4 * i + 2]);
            assert(now.rgba[4 * i + 3] == before.rgba[4 * i + 3]);
            if exists|k: int| 0 <= k < n - 1 && is_painted(before, i, #[trigger] fragments[k]) {
                let k = choose|k: int|
                    0 <= k < n - 1 && is_painted(before, i, #[trigger] fragments[k]);
                assert(is_painted(now, i, fragments[k]));
            }
        }
    }
}

/// An object is placed by itself and then by each of its parents in turn, as
/// far as they are among the objects.
pub proof fn law_chains_lead_up(objects: Seq<Object>, i: int, steps: nat)
    ensures
        chain(objects, i, steps) matches Some(up) ==> {
            &&& up.len() > 0 && up[0] == i
            &&& forall|k: int|
                0 <= k < up.len() - 1 ==> objects[#[trigger] up[k]].parent is Some && place_of(
                    objects,
                    objects[up[k]].parent->0,
                ) == Some(up[k + 1])
            &&& objects[up.last()].parent is None || place_of(
                objects,
                objects[up.last()].parent->0,
            ) is None
        },
    decreases steps,
{
    if steps > 0 {
        if let Some(p) = objects[i].parent {
            if let Some(j) = place_of(objects, p) {
                law_chains_lead_up(objects, j, (steps - 1) as nat);
                if let Some(rest) = chain(objects, j, (steps - 1) as nat) {
                    let up = seq![i] + rest;
                    assert(up.last() == rest.last());
                    assert forall|k: int| 0 <= k < up.len() - 1 implies objects[#[trigger] up[k]].parent
                        is Some && place_of(objects, objects[up[k]].parent->0) == Some(up[k + 1]) by {
                        if k > 0 {
                            assert(up[k] == rest[k - 1]);
                            assert(up[k + 1] == rest[(k - 1) + 1]);
                        } else {
                            assert(up[1] == rest[0]);
                        }
                    }
                }
            }
        }
    }
}

/// The preview shows the visible objects, in order, and no others.
pub proof fn law_previews_show_visible_objects(objects: Seq<Object>, n: nat, i: usize)
    requires
        n <= objects.len() <= usize::MAX,
    ensures
        visible_in(objects, n).contains(i) <==> i < n && objects[i as int].visible,
        forall|a: int, b: int|
            0 <= a < b < visible_in(objects, n).len() ==> #[trigger] visible_in(objects, n)[a]
                < #[trigger] visible_in(objects, n)[b],
        forall|a: int|
            0 <= a < visible_in(objects, n).len() ==> #[trigger] visible_in(objects, n)[a] < n,
    decreases n,
{
    if n > 0 {
        law_previews_show_visible_objects(objects, (n - 1) as nat, i);
        let before = visible_in(objects, (n - 1) as nat);
        let now = visible_in(objects, n);
        if before.contains(i) {
            let k = choose|k: int| 0 <= k < before.len() && before[k] == i;
            assert(now[k] == i);
        }
        if now.len() > before.len() {
            assert(now[before.len() as int] == n - 1);
        }
        if now.contains(i) && !before.contains(i) {
            assert(i == n - 1);
        }
    }
}

} // verus!
