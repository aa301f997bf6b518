//! Breaking an object into bricks, and rebuilding it from them.

use vstd::prelude::*;
use crate::scalar::Scalar;
use crate::scene::{
    exists_in, ids_distinct, lemma_place_of, place_of, Folder, Object, ObjectId, Primitive, Scene,
};
use crate::text::{decimal, join, push_decimal};

verus! {

/// A span of a course, from one number to the other.
pub type Span = (Scalar, Scalar);

/// `a` is at most `b`.
pub open spec fn at_most(a: Scalar, b: Scalar) -> bool {
    a.less(b) || a.equal(b)
}

/// What is left of `free` without `blocked`: nothing, one span or two.
pub open spec fn span_left(free: Span, blocked: Span) -> Seq<Span> {
    if at_most(blocked.1, free.0) || at_most(free.1, blocked.0) {
        seq![free]
    } else {
        (if free.0.less(blocked.0) {
            seq![(free.0, blocked.0)]
        } else {
            seq![]
        }) + (if blocked.1.less(free.1) {
            seq![(blocked.1, free.1)]
        } else {
            seq![]
        })
    }
}

/// What is left of the first `n` free spans without `blocked`.
pub open spec fn spans_left(free: Seq<Span>, blocked: Span, n: nat) -> Seq<Span>
    decreases n,
{
    if n == 0 {
        seq![]
    } else {
        spans_left(free, blocked, (n - 1) as nat) + span_left(free[n - 1], blocked)
    }
}

/// What is left of a span without the first `n` blocked ones.
pub open spec fn ranges_left(whole: Span, blocked: Seq<Span>, n: nat) -> Seq<Span>
    decreases n,
{
    if n == 0 {
        seq![whole]
    } else {
        let before = ranges_left(whole, blocked, (n - 1) as nat);
        spans_left(before, blocked[n - 1], before.len())
    }
}

fn cut_spans(free: &Vec<Span>, blocked: Span) -> (r: Vec<Span>)
    ensures
        r@ == spans_left(free@, blocked, free@.len()),
{
    let mut r: Vec<Span> = Vec::new();
    let mut n: usize = 0;
    while n < free.len()
        invariant
            n <= free@.len(),
            r@ == spans_left(free@, blocked, n as nat),
        decreases free@.len() - n,
    {
        let (f0, f1) = free[n];
        let ghost before = r@;
        if blocked.1.is_at_most(f0) || f1.is_at_most(blocked.0) {
            r.push((f0, f1));
        } else {
            if f0.is_less(blocked.0) {
                r.push((f0, blocked.0));
            }
            if blocked.1.is_less(f1) {
                r.push((blocked.1, f1));
            }
        }
        assert(r@ =~= before + span_left(free@[n as int], blocked));
        n += 1;
    }
    r
}

/// The parts of the span from `x0` to `x1` that no blocked span covers.
pub fn subtract_ranges(x0: Scalar, x1: Scalar, blocked: &Vec<Span>) -> (r: Vec<Span>)
    ensures
        r@ == ranges_left((x0, x1), blocked@, blocked@.len()),
{
    let mut free: Vec<Span> = Vec::new();
    free.push((x0, x1));
    assert(free@ =~= seq![(x0, x1)]);
    let mut n: usize = 0;
    while n < blocked.len()
        invariant
            n <= blocked@.len(),
            free@ == ranges_left((x0, x1), blocked@, n as nat),
        decreases blocked@.len() - n,
    {
        let next = cut_spans(&free, blocked[n]);
        free = next;
        n += 1;
    }
    free
}

/// The number lies in the span, ends included.
pub open spec fn inside(x: Scalar, span: Span) -> bool {
    at_most(span.0, x) && at_most(x, span.1)
}

/// The number lies in the span, ends not included.
pub open spec fn strictly_inside(x: Scalar, span: Span) -> bool {
    span.0.less(x) && x.less(span.1)
}

/// Some of the spans holds the number, ends included.
pub open spec fn some_inside(x: Scalar, spans: Seq<Span>) -> bool {
    exists|i: int| 0 <= i < spans.len() && inside(x, #[trigger] spans[i])
}

/// Some of the spans holds the number, ends not included.
pub open spec fn some_strictly_inside(x: Scalar, spans: Seq<Span>) -> bool {
    exists|i: int| 0 <= i < spans.len() && strictly_inside(x, #[trigger] spans[i])
}

/// Both ends of the span are numbers.
pub open spec fn is_number_span(span: Span) -> bool {
    !span.0.nan() && !span.1.nan()
}

proof fn lemma_span_left(x: Scalar, free: Span, blocked: Span)
    requires
        is_number_span(blocked),
        is_number_span(free),
    ensures
        forall|i: int|
            0 <= i < span_left(free, blocked).len() ==> is_number_span(
                #[trigger] span_left(free, blocked)[i],
            ),
        some_strictly_inside(x, span_left(free, blocked)) ==> strictly_inside(x, free)
            && !strictly_inside(x, blocked),
        inside(x, free) && !inside(x, blocked) ==> some_inside(x, span_left(free, blocked)),
{
    let left = span_left(free, blocked);
    if some_strictly_inside(x, left) {
        let i = choose|i: int| 0 <= i < left.len() && strictly_inside(x, #[trigger] left[i]);
        assert(strictly_inside(x, left[i]));
    }
    if inside(x, free) && !inside(x, blocked) {
        if at_most(blocked.1, free.0) || at_most(free.1, blocked.0) {
            assert(inside(x, left[0]));
        } else if x.less(blocked.0) {
            assert(inside(x, left[0]));
        } else {
            assert(inside(x, left[left.len() - 1]));
        }
    }
}

proof fn lemma_spans_left(x: Scalar, free: Seq<Span>, blocked: Span, n: nat)
    requires
        n <= free.len(),
        is_number_span(blocked),
        forall|i: int| 0 <= i < free.len() ==> is_number_span(#[trigger] free[i]),
    ensures
        forall|i: int|
            0 <= i < spans_left(free, blocked, n).len() ==> is_number_span(
                #[trigger] spans_left(free, blocked, n)[i],
            ),
        some_strictly_inside(x, spans_left(free, blocked, n)) ==> some_strictly_inside(x, free)
            && !strictly_inside(x, blocked),
        !inside(x, blocked) ==> forall|i: int|
            0 <= i < n && inside(x, #[trigger] free[i]) ==> some_inside(
                x,
                spans_left(free, blocked, n),
            ),
    decreases n,
{
    if n > 0 {
        let m = (n - 1) as nat;
        lemma_spans_left(x, free, blocked, m);
        lemma_span_left(x, free[n - 1], blocked);
        let before = spans_left(free, blocked, m);
        let more = span_left(free[n - 1], blocked);
        let now = spans_left(free, blocked, n);
        assert(now == before + more);
        assert(is_number_span(free[n - 1]));
        assert forall|i: int| 0 <= i < now.len() implies is_number_span(#[trigger] now[i]) by {
            if i < before.len() {
                assert(now[i] == before[i]);
            } else {
                assert(now[i] == more[i - before.len()]);
            }
        }
        if some_strictly_inside(x, now) {
            let i = choose|i: int| 0 <= i < now.len() && strictly_inside(x, #[trigger] now[i]);
            if i < before.len() {
                assert(strictly_inside(x, before[i]));
            } else {
                assert(strictly_inside(x, more[i - before.len()]));
                assert(strictly_inside(x, free[n - 1]));
            }
        }
        if !inside(x, blocked) {
            assert forall|i: int| 0 <= i < n && inside(x, #[trigger] free[i]) implies some_inside(
                x,
                now,
            ) by {
                if i < m {
                    let k = choose|k: int| 0 <= k < before.len() && inside(x, #[trigger] before[k]);
                    assert(inside(x, now[k]));
                } else {
                    let k = choose|k: int| 0 <= k < more.len() && inside(x, #[trigger] more[k]);
                    assert(inside(x, now[before.len() + k]));
                }
            }
        }
    }
}

/// What is left of a span holds no number of a blocked span but its ends,
/// and every number of the whole that no blocked span holds.
pub proof fn law_free_spans_are_the_rest(x: Scalar, whole: Span, blocked: Seq<Span>, n: nat)
    requires
        n <= blocked.len(),
        is_number_span(whole),
        forall|i: int| 0 <= i < blocked.len() ==> is_number_span(#[trigger] blocked[i]),
    ensures
        forall|i: int|
            0 <= i < ranges_left(whole, blocked, n).len() ==> is_number_span(
                #[trigger] ranges_left(whole, blocked, n)[i],
            ),
        some_strictly_inside(x, ranges_left(whole, blocked, n)) ==> {
            &&& strictly_inside(x, whole)
            &&& forall|i: int| 0 <= i < n ==> !strictly_inside(x, #[trigger] blocked[i])
        },
        inside(x, whole) && (forall|i: int| 0 <= i < n ==> !inside(x, #[trigger] blocked[i]))
            ==> some_inside(x, ranges_left(whole, blocked, n)),
    decreases n,
{
    if n == 0 {
        let left = ranges_left(whole, blocked, 0);
        assert(left[0] == whole);
        if inside(x, whole) {
            assert(inside(x, left[0]));
        }
    } else {
        let m = (n - 1) as nat;
        law_free_spans_are_the_rest(x, whole, blocked, m);
        let before = ranges_left(whole, blocked, m);
        assert(is_number_span(blocked[n - 1]));
        lemma_spans_left(x, before, blocked[n - 1], before.len());
        if inside(x, whole) && (forall|i: int| 0 <= i < n ==> !inside(x, #[trigger] blocked[i])) {
            assert(!inside(x, blocked[n - 1]));
            let k = choose|k: int| 0 <= k < before.len() && inside(x, #[trigger] before[k]);
            assert(inside(x, before[k]));
        }
    }
}

/// The spans are not empty, do not overlap, and come in order.
pub open spec fn in_order(spans: Seq<Span>) -> bool {
    &&& forall|i: int| 0 <= i < spans.len() ==> (#[trigger] spans[i]).0.less(spans[i].1)
    &&& forall|i: int, j: int|
        0 <= i < j < spans.len() ==> at_most((#[trigger] spans[i]).1, (#[trigger] spans[j]).0)
}

proof fn lemma_spans_in_order(free: Seq<Span>, blocked: Span, n: nat)
    requires
        n <= free.len(),
        in_order(free),
        at_most(blocked.0, blocked.1),
    ensures
        in_order(spans_left(free, blocked, n)),
        forall|k: int, j: int|
            0 <= k < spans_left(free, blocked, n).len() && n <= j < free.len() ==> at_most(
                (#[trigger] spans_left(free, blocked, n)[k]).1,
                (#[trigger] free[j]).0,
            ),
    decreases n,
{
    if n > 0 {
        let m = (n - 1) as nat;
        lemma_spans_in_order(free, blocked, m);
        let before = spans_left(free, blocked, m);
        let last = free[n - 1];
        let more = span_left(last, blocked);
        let now = spans_left(free, blocked, n);
        assert(now == before + more);
        assert(last.0.less(last.1));
        assert forall|k: int| 0 <= k < more.len() implies (#[trigger] more[k]).0.less(more[k].1)
            && at_most(last.0, more[k].0) && at_most(more[k].1, last.1) by {}
        assert forall|i: int| 0 <= i < now.len() implies (#[trigger] now[i]).0.less(now[i].1) by {
            if i < before.len() {
                assert(now[i] == before[i]);
            } else {
                assert(now[i] == more[i - before.len()]);
            }
        }
        assert forall|i: int, j: int| 0 <= i < j < now.len() implies at_most(
            (#[trigger] now[i]).1,
            (#[trigger] now[j]).0,
        ) by {
            if j < before.len() {
                assert(now[i] == before[i] && now[j] == before[j]);
            } else if i < before.len() {
                assert(now[i] == before[i] && now[j] == more[j - before.len()]);
                assert(at_most(before[i].1, free[n - 1].0));
            } else {
                assert(now[i] == more[i - before.len()] && now[j] == more[j - before.len()]);
            }
        }
        assert forall|k: int, j: int| 0 <= k < now.len() && n <= j < free.len() implies at_most(
            (#[trigger] now[k]).1,
            (#[trigger] free[j]).0,
        ) by {
            assert(at_most(free[n - 1].1, free[j].0));
            if k < before.len() {
                assert(now[k] == before[k]);
                assert(at_most(before[k].1, free[j].0));
            } else {
                assert(now[k] == more[k - before.len()]);
            }
        }
    }
}

/// What is left of a span comes in order, in spans that are not empty and do
/// not overlap.
pub proof fn law_free_spans_are_in_order(whole: Span, blocked: Seq<Span>, n: nat)
    requires
        n <= blocked.len(),
        whole.0.less(whole.1),
        forall|i: int|
            0 <= i < blocked.len() ==> at_most((#[trigger] blocked[i]).0, blocked[i].1),
    ensures
        in_order(ranges_left(whole, blocked, n)),
    decreases n,
{
    if n > 0 {
        let m = (n - 1) as nat;
        law_free_spans_are_in_order(whole, blocked, m);
        let before = ranges_left(whole, blocked, m);
        assert(at_most(blocked[n - 1].0, blocked[n - 1].1));
        lemma_spans_in_order(before, blocked[n - 1], before.len());
    }
}

/// How an object breaks.
#[derive(Clone, Copy, PartialEq, Eq, Structural, Debug)]
pub enum Breakage {
    /// In the courses of a wall, around its openings.
    Courses,
    /// In a grid of bricks that fills it.
    Grid,
    /// Not at all: it takes up no space.
    Whole,
}

/// How an object breaks. A wall whose mesh was edited is no wall any more.
pub fn breakage(o: &Object) -> (r: Breakage)
    ensures
        r == (if o.primitive is Wall && o.edited_mesh is None {
            Breakage::Courses
        } else if o.primitive is Light || o.primitive is Empty {
            Breakage::Whole
        } else {
            Breakage::Grid
        }),
{
    let wall = matches!(o.primitive, Primitive::Wall { .. });
    if wall && o.edited_mesh.is_none() {
        Breakage::Courses
    } else if o.primitive.is_light() || matches!(o.primitive, Primitive::Empty { .. }) {
        Breakage::Whole
    } else {
        Breakage::Grid
    }
}

/// The name of a brick, counted from 0.
pub open spec fn brick_name(base: Seq<char>, i: nat) -> Seq<char> {
    base + " brick "@ + decimal(i + 1)
}

/// The brick that `brick` becomes: named, filed and ready to fall.
pub open spec fn is_brick(
    made: Object,
    brick: Object,
    source: Object,
    folder: u64,
    i: nat,
    id: ObjectId,
) -> bool {
    &&& made.name@ == brick_name(source.name@, i)
    &&& made == (Object {
        id,
        name: made.name,
        folder: Some(folder),
        dynamic: true,
        density: source.density,
        ..brick
    })
}

/// The objects `now` are `before` with the first `n` bricks added, which
/// have the ids from `first` on.
pub open spec fn bricks_added(
    before: Seq<Object>,
    now: Seq<Object>,
    bricks: Seq<Object>,
    source: Object,
    folder: u64,
    first: u64,
    n: nat,
) -> bool {
    &&& now.len() == before.len() + n
    &&& forall|i: int| 0 <= i < before.len() ==> #[trigger] now[i] == before[i]
    &&& forall|i: int|
        0 <= i < n ==> is_brick(
            #[trigger] now[before.len() + i],
            bricks[i],
            source,
            folder,
            i as nat,
            ObjectId((first + i) as u64),
        )
}

/// The scene `now` is `before` with the object `id` replaced by bricks.
pub open spec fn broken(before: Scene, now: Scene, bricks: Seq<Object>, id: ObjectId) -> bool {
    let at = place_of(before.objects@, id)->0;
    let source = before.objects@[at];
    let folder = before.next_id;
    exists|full: Seq<Object>|
        {
            &&& #[trigger] bricks_added(
                before.objects@,
                full,
                bricks,
                source,
                folder,
                (folder + 1) as u64,
                bricks.len(),
            )
            &&& now.objects@ == full.remove(at)
            &&& now.folders@.len() == before.folders@.len() + 1
            &&& forall|i: int|
                0 <= i < before.folders@.len() ==> #[trigger] now.folders@[i]
                    == before.folders@[i]
            &&& now.folders@.last().id == folder
            &&& now.folders@.last().name@ == source.name@ + " bricks"@
            &&& now.folders@.last().source == Some(source)
            &&& now.next_id == before.next_id + 1 + bricks.len()
        }
}

/// The ids from `first` on.
pub open spec fn ids_from(first: u64, n: nat) -> Seq<ObjectId> {
    Seq::new(n, |i: int| ObjectId((first + i) as u64))
}

fn name_brick(base: &str, i: usize) -> (r: String)
    requires
        i < usize::MAX,
    ensures
        r@ == brick_name(base@, i as nat),
{
    let mut s = join(base, " brick ");
    push_decimal(&mut s, i as u64 + 1);
    s
}

/// Puts the bricks into the scene, in order.
fn lay_bricks(
    scene: &mut Scene,
    bricks: Vec<Object>,
    base: &str,
    folder: u64,
    density: Scalar,
    Ghost(source): Ghost<Object>,
) -> (ids: Vec<ObjectId>)
    requires
        old(scene).wf(),
        old(scene).next_id + bricks@.len() <= u64::MAX,
        base@ == source.name@,
        density == source.density,
    ensures
        final(scene).wf(),
        final(scene).folders == old(scene).folders,
        final(scene).next_id == old(scene).next_id + bricks@.len(),
        bricks_added(
            old(scene).objects@,
            final(scene).objects@,
            bricks@,
            source,
            folder,
            old(scene).next_id,
            bricks@.len(),
        ),
        ids@ == ids_from(old(scene).next_id, bricks@.len()),
{
    let ghost all = bricks@;
    let total: usize = bricks.len();
    let mut ids: Vec<ObjectId> = Vec::new();
    let mut i: usize = 0;
    for next in it: bricks.into_iter()
        invariant
            i == it.index(),
            i <= total,
            total == all.len(),
            it.seq() == all,
            scene.wf(),
            scene.folders == old(scene).folders,
            scene.next_id == old(scene).next_id + i,
            old(scene).next_id + total <= u64::MAX,
            base@ == source.name@,
            density == source.density,
            bricks_added(
                old(scene).objects@,
                scene.objects@,
                all,
                source,
                folder,
                old(scene).next_id,
                i as nat,
            ),
            ids@ == ids_from(old(scene).next_id, i as nat),
    {
        let ghost before = scene.objects@;
        let mut brick = next;
        assert(brick == all[i as int]);
        brick.name = name_brick(base, i);
        brick.folder = Some(folder);
        brick.dynamic = true;
        brick.density = density;
        let ghost named = brick;
        let id = scene.insert_object(brick);
        ids.push(id);
        proof {
            let now = scene.objects@;
            let at = old(scene).objects@.len();
            assert(now[at + i] == (Object { id, ..named }));
            assert forall|k: int| 0 <= k < i + 1 implies is_brick(
                #[trigger] now[at + k],
                all[k],
                source,
                folder,
                k as nat,
                ObjectId((old(scene).next_id + k) as u64),
            ) by {
                if k < i {
                    assert(now[at + k] == before[at + k]);
                }
            }
            assert(ids@ =~= ids_from(old(scene).next_id, (i + 1) as nat));
        }
        i += 1;
    }
    ids
}

/// Replaces the object `id` by bricks, which are new cubes where they are to
/// stand, in a folder that keeps the object for rebuilding. Returns their
/// ids. Nothing happens where there are no bricks, or no such object.
pub fn replace_with_bricks(scene: &mut Scene, id: ObjectId, bricks: Vec<Object>) -> (r: Option<
    Vec<ObjectId>,
>)
    requires
        old(scene).wf(),
        old(scene).next_id + 1 + bricks@.len() <= u64::MAX,
    ensures
        final(scene).wf(),
        r is Some == (bricks@.len() > 0 && old(scene).has(id)),
        r is None ==> *final(scene) == *old(scene),
        r matches Some(ids) ==> {
            &&& broken(*old(scene), *final(scene), bricks@, id)
            &&& ids@ == ids_from((old(scene).next_id + 1) as u64, bricks@.len())
        },
{
    if bricks.len() == 0 {
        return None;
    }
    match scene.find(id) {
        None => None,
        Some(at) => {
            let ghost source = scene.objects@[at as int];
            let base = scene.objects[at].name.as_str().to_owned();
            let density = scene.objects[at].density;
            let folder = scene.add_folder(join(base.as_str(), " bricks"));
            let ghost count = bricks@.len();
            let ghost all = bricks@;
            let ids = lay_bricks(scene, bricks, base.as_str(), folder, density, Ghost(source));
            let ghost full = scene.objects@;
            proof {
                lemma_place_of(old(scene).objects@, id);
                assert forall|j: int| 0 <= j < at implies (#[trigger] full[j]).id != id by {
                    assert(full[j] == old(scene).objects@[j]);
                }
                assert(full[at as int].id == id);
                crate::scene::lemma_place_found(full, id, at as int);
                lemma_place_of(full, id);
            }
            let original = scene.remove_object(id);
            let last: usize = scene.folders.len() - 1;
            let ghost filed = scene.folders@;
            match original {
                Some(o) => {
                    assert(o == source);
                    scene.folders[last].source = Some(o);
                },
                None => {},
            }
            proof {
                assert(scene.folders@[last as int].id == filed[last as int].id);
                assert forall|i: int| 0 <= i < last implies #[trigger] scene.folders@[i]
                    == filed[i] by {}
                assert forall|i: int, j: int|
                    0 <= i < j < scene.folders@.len() implies (#[trigger] scene.folders@[i]).id != (
                #[trigger] scene.folders@[j]).id by {
                    assert(filed[i].id != filed[j].id);
                }
                assert forall|i: int| 0 <= i < scene.folders@.len() implies (
                #[trigger] scene.folders@[i]).id < scene.next_id by {
                    assert(filed[i].id < scene.next_id);
                }
                assert(bricks_added(
                    old(scene).objects@,
                    full,
                    all,
                    source,
                    folder,
                    (folder + 1) as u64,
                    count,
                ));
                assert(broken(*old(scene), *scene, all, id));
            }
            Some(ids)
        },
    }
}

/// The place of the folder `id` among the first `n`.
pub open spec fn folder_at(folders: Seq<Folder>, id: u64, n: nat) -> Option<int>
    decreases n,
{
    if n == 0 {
        None
    } else if folder_at(folders, id, (n - 1) as nat) is Some {
        folder_at(folders, id, (n - 1) as nat)
    } else if folders[n - 1].id == id {
        Some(n - 1)
    } else {
        None
    }
}

fn find_folder(folders: &Vec<Folder>, id: u64) -> (r: Option<usize>)
    ensures
        r matches Some(i) ==> folder_at(folders@, id, folders@.len()) == Some(i as int) && i
            < folders@.len() && folders@[i as int].id == id,
        r is None ==> folder_at(folders@, id, folders@.len()) is None,
{
    let mut found: Option<usize> = None;
    let mut n: usize = 0;
    while n < folders.len()
        invariant
            n <= folders@.len(),
            found matches Some(i) ==> folder_at(folders@, id, n as nat) == Some(i as int) && i < n
                && folders@[i as int].id == id,
            found is None ==> folder_at(folders@, id, n as nat) is None,
        decreases folders@.len() - n,
    {
        if found.is_none() && folders[n].id == id {
            found = Some(n);
        }
        n += 1;
    }
    found
}

/// The folder `id` keeps an object to rebuild.
pub open spec fn keeps_source(folders: Seq<Folder>, id: u64) -> bool {
    folder_at(folders, id, folders.len()) matches Some(i) && folders[i].source is Some
}

/// The folder that the object `id` can be rebuilt from.
pub fn rebuildable_folder(scene: &Scene, id: ObjectId) -> (r: Option<u64>)
    ensures
        r == (match place_of(scene.objects@, id) {
            Some(i) => match scene.objects@[i].folder {
                Some(f) => if keeps_source(scene.folders@, f) {
                    Some(f)
                } else {
                    None
                },
                None => None,
            },
            None => None,
        }),
{
    match scene.find(id) {
        Some(i) => match scene.objects[i].folder {
            Some(f) => match find_folder(&scene.folders, f) {
                Some(k) => if scene.folders[k].source.is_some() {
                    Some(f)
                } else {
                    None
                },
                None => None,
            },
            None => None,
        },
        None => None,
    }
}

/// The first `n` objects without those filed in the folder.
pub open spec fn unfiled(objects: Seq<Object>, folder: u64, n: nat) -> Seq<Object>
    decreases n,
{
    if n == 0 {
        seq![]
    } else if objects[n - 1].folder == Some(folder) {
        unfiled(objects, folder, (n - 1) as nat)
    } else {
        unfiled(objects, folder, (n - 1) as nat).push(objects[n - 1])
    }
}

proof fn lemma_unfiled(objects: Seq<Object>, folder: u64, n: nat)
    requires
        n <= objects.len(),
    ensures
        forall|i: int|
            0 <= i < unfiled(objects, folder, n).len() ==> exists|k: int|
                0 <= k < n && objects[k] == #[trigger] unfiled(objects, folder, n)[i],
        ids_distinct(objects) ==> ids_distinct(unfiled(objects, folder, n)),
    decreases n,
{
    if n > 0 {
        let m = (n - 1) as nat;
        lemma_unfiled(objects, folder, m);
        let before = unfiled(objects, folder, m);
        let now = unfiled(objects, folder, n);
        assert forall|i: int| 0 <= i < now.len() implies exists|k: int|
            0 <= k < n && objects[k] == #[trigger] now[i] by {
            if i < before.len() {
                let k = choose|k: int| 0 <= k < m && objects[k] == before[i];
                assert(objects[k] == now[i]);
            } else {
                assert(objects[n - 1] == now[i]);
            }
        }
        if ids_distinct(objects) {
            assert forall|i: int, j: int| 0 <= i < j < now.len() implies (#[trigger] now[i]).id != (
            #[trigger] now[j]).id by {
                if j < before.len() {
                    assert(before[i].id != before[j].id);
                } else {
                    let k = choose|k: int| 0 <= k < m && objects[k] == before[i];
                    assert(objects[k].id != objects[n - 1].id);
                }
            }
        }
    }
}

/// The object as it is put back: in no folder, under the parent it had if
/// that is still there.
pub open spec fn put_back(source: Object, id: ObjectId, rest: Seq<Object>) -> Object {
    Object {
        id,
        folder: None,
        parent: match source.parent {
            Some(p) => if exists_in(rest, p) {
                Some(p)
            } else {
                None
            },
            None => None,
        },
        ..source
    }
}

/// Removes every object filed in the folder, wherever it is now, and the
/// folder, and puts the object back that the folder kept. Returns its new
/// id. `None` where the folder keeps none.
pub fn rebuild_wall_from_folder(scene: &mut Scene, folder: u64) -> (r: Option<ObjectId>)
    requires
        old(scene).wf(),
        old(scene).next_id < u64::MAX,
    ensures
        final(scene).wf(),
        r is Some == keeps_source(old(scene).folders@, folder),
        r is None ==> *final(scene) == *old(scene),
        r matches Some(id) ==> {
            let at = folder_at(old(scene).folders@, folder, old(scene).folders@.len())->0;
            let rest = unfiled(old(scene).objects@, folder, old(scene).objects@.len());
            &&& id.0 == old(scene).next_id
            &&& final(scene).next_id == old(scene).next_id + 1
            &&& final(scene).folders@ == old(scene).folders@.remove(at)
            &&& final(scene).objects@ == rest.push(
                put_back(old(scene).folders@[at].source->0, id, rest),
            )
        },
{
    match find_folder(&scene.folders, folder) {
        None => None,
        Some(at) => {
            if scene.folders[at].source.is_none() {
                return None;
            }
            let ghost folders = scene.folders@;
            let gone = scene.folders.remove(at);
            proof {
                let now = scene.folders@;
                assert forall|i: int| 0 <= i < now.len() implies #[trigger] now[i]
                    == folders[if i < at { i } else { i + 1 }] by {}
            }
            let mut objects: Vec<Object> = Vec::new();
            std::mem::swap(&mut objects, &mut scene.objects);
            let ghost all = objects@;
            let mut rest: Vec<Object> = Vec::new();
            for o in it: objects.into_iter()
                invariant
                    it.seq() == all,
                    rest@ == unfiled(all, folder, it.index() as nat),
            {
                let member = match o.folder {
                    Some(f) => f == folder,
                    None => false,
                };
                if !member {
                    rest.push(o);
                }
            }
            scene.objects = rest;
            proof {
                lemma_unfiled(all, folder, all.len());
                assert forall|i: int| 0 <= i < scene.objects@.len() implies (
                #[trigger] scene.objects@[i]).id.0 < scene.next_id by {
                    let k = choose|k: int| 0 <= k < all.len() && all[k] == scene.objects@[i];
                    assert(all[k].id.0 < scene.next_id);
                }
            }
            match gone.source {
                Some(source) => {
                    let mut wall = source;
                    let parent = match wall.parent {
                        Some(p) => if scene.contains(p) {
                            Some(p)
                        } else {
                            None
                        },
                        None => None,
                    };
                    wall.folder = None;
                    wall.parent = parent;
                    Some(scene.insert_object(wall))
                },
                None => None,
            }
        },
    }
}

proof fn lemma_unfiled_split(objects: Seq<Object>, folder: u64, split: nat, n: nat)
    requires
        split <= n <= objects.len(),
        forall|i: int| 0 <= i < split ==> (#[trigger] objects[i]).folder != Some(folder),
        forall|i: int| split <= i < n ==> (#[trigger] objects[i]).folder == Some(folder),
    ensures
        unfiled(objects, folder, n) == objects.take(split as int),
    decreases n,
{
    if n > 0 {
        if n > split {
            lemma_unfiled_split(objects, folder, split, (n - 1) as nat);
        } else {
            lemma_unfiled_split(objects, folder, (n - 1) as nat, (n - 1) as nat);
            assert(objects.take(n as int) =~= objects.take(n - 1).push(objects[n - 1]));
        }
    } else {
        assert(objects.take(0) =~= seq![]);
    }
}

proof fn lemma_folder_at(folders: Seq<Folder>, id: u64, n: nat)
    requires
        n <= folders.len(),
        forall|i: int| 0 <= i < n ==> (#[trigger] folders[i]).id != id,
    ensures
        folder_at(folders, id, n) is None,
    decreases n,
{
    if n > 0 {
        lemma_folder_at(folders, id, (n - 1) as nat);
    }
}

/// Rebuilding undoes breaking: wherever the bricks went meanwhile, and
/// whether any are left, the other objects and folders are as they were, and
/// the object is back as it was, in no folder, under its parent if that is
/// still there.
pub proof fn law_rebuilding_undoes_breaking(
    before: Scene,
    broke: Scene,
    bricks: Seq<Object>,
    id: ObjectId,
    later: Seq<Object>,
    new_id: ObjectId,
)
    requires
        before.wf(),
        before.has(id),
        before.next_id + 1 + bricks.len() <= u64::MAX,
        broken(before, broke, bricks, id),
        forall|i: int|
            0 <= i < before.objects@.len() ==> (#[trigger] before.objects@[i]).folder != Some(
                before.next_id,
            ),
        unfiled(later, before.next_id, later.len()) == unfiled(
            broke.objects@,
            before.next_id,
            broke.objects@.len(),
        ),
    ensures
        ({
            let f = before.next_id;
            let at = place_of(before.objects@, id)->0;
            let source = before.objects@[at];
            let rest = unfiled(later, f, later.len());
            let k = folder_at(broke.folders@, f, broke.folders@.len());
            &&& keeps_source(broke.folders@, f)
            &&& broke.folders@[k->0].source == Some(source)
            &&& broke.folders@.remove(k->0) == before.folders@
            &&& rest == before.objects@.remove(at)
            &&& rest.len() + 1 == before.objects@.len()
            &&& put_back(source, new_id, rest) == (Object {
                id: new_id,
                folder: None,
                parent: put_back(source, new_id, rest).parent,
                ..source
            })
            &&& source.parent is None || exists_in(rest, source.parent->0) ==> put_back(
                source,
                new_id,
                rest,
            ).parent == source.parent
        }),
{
    let f = before.next_id;
    let at = place_of(before.objects@, id)->0;
    let source = before.objects@[at];
    lemma_place_of(before.objects@, id);
    let full = choose|full: Seq<Object>|
        {
            &&& #[trigger] bricks_added(
                before.objects@,
                full,
                bricks,
                source,
                f,
                (f + 1) as u64,
                bricks.len(),
            )
            &&& broke.objects@ == full.remove(at)
            &&& broke.folders@.len() == before.folders@.len() + 1
            &&& forall|i: int|
                0 <= i < before.folders@.len() ==> #[trigger] broke.folders@[i]
                    == before.folders@[i]
            &&& broke.folders@.last().id == f
            &&& broke.folders@.last().name@ == source.name@ + " bricks"@
            &&& broke.folders@.last().source == Some(source)
            &&& broke.next_id == before.next_id + 1 + bricks.len()
        };
    let now = broke.objects@;
    let count = (before.objects@.len() - 1) as nat;
    assert forall|i: int| 0 <= i < count implies (#[trigger] now[i]).folder != Some(f) by {
        let k = if i < at {
            i
        } else {
            i + 1
        };
        assert(now[i] == full[k]);
        assert(full[k] == before.objects@[k]);
    }
    assert forall|i: int| count <= i < now.len() implies (#[trigger] now[i]).folder == Some(f) by {
        let k = i + 1 - before.objects@.len();
        assert(now[i] == full[i + 1]);
        assert(full[i + 1] == full[before.objects@.len() + k]);
    }
    lemma_unfiled_split(now, f, count, now.len());
    assert(now.take(count as int) =~= before.objects@.remove(at)) by {
        assert forall|i: int| 0 <= i < count implies now[i] == before.objects@.remove(at)[i] by {
            let k = if i < at {
                i
            } else {
                i + 1
            };
            assert(now[i] == full[k]);
            assert(full[k] == before.objects@[k]);
        }
    }
    assert forall|i: int| 0 <= i < before.folders@.len() implies (#[trigger] broke.folders@[i]).id
        != f by {
        assert(broke.folders@[i] == before.folders@[i]);
    }
    lemma_folder_at(broke.folders@, f, before.folders@.len());
    assert(broke.folders@[before.folders@.len() as int] == broke.folders@.last());
    assert(folder_at(broke.folders@, f, broke.folders@.len()) == Some(
        before.folders@.len() as int,
    ));
    assert(broke.folders@.remove(before.folders@.len() as int) =~= before.folders@);
}

/// A brick wall falls as one body did: every brick is of the same density,
/// moves by itself, and lies in the new folder under the name of what it was
/// broken from. Where the bricks lie is left to them.
pub proof fn law_bricks_are_made_to_fall(
    before: Seq<Object>,
    now: Seq<Object>,
    bricks: Seq<Object>,
    source: Object,
    folder: u64,
    first: u64,
    n: nat,
    i: int,
)
    requires
        bricks_added(before, now, bricks, source, folder, first, n),
        first + n <= u64::MAX,
        0 <= i < n,
    ensures
        ({
            let made = now[before.len() + i];
            &&& made.dynamic
            &&& made.density == source.density
            &&& made.folder == Some(folder)
            &&& made.id.0 == first + i
            &&& made.transform == bricks[i].transform
            &&& made.primitive == bricks[i].primitive
            &&& source.name@.is_prefix_of(made.name@)
        }),
{
    assert(is_brick(
        now[before.len() + i],
        bricks[i],
        source,
        folder,
        i as nat,
        ObjectId((first + i) as u64),
    ));
}

/// Breaking takes away the object itself and nothing else.
pub proof fn law_breaking_takes_only_the_object(
    before: Scene,
    now: Scene,
    bricks: Seq<Object>,
    id: ObjectId,
    other: ObjectId,
)
    requires
        before.wf(),
        before.has(id),
        before.has(other),
        broken(before, now, bricks, id),
        before.next_id + 1 + bricks.len() <= u64::MAX,
    ensures
        exists_in(now.objects@, other) <==> other != id,
        now.objects@.len() == before.objects@.len() + bricks.len() - 1,
{
    let at = place_of(before.objects@, id)->0;
    lemma_place_of(before.objects@, id);
    lemma_place_of(before.objects@, other);
    let source = before.objects@[at];
    let folder = before.next_id;
    let full = choose|full: Seq<Object>|
        {
            &&& #[trigger] bricks_added(
                before.objects@,
                full,
                bricks,
                source,
                folder,
                (folder + 1) as u64,
                bricks.len(),
            )
            &&& now.objects@ == full.remove(at)
        };
    let m = place_of(before.objects@, other)->0;
    assert(full[m] == before.objects@[m]);
    if other != id {
        let k = if m < at {
            m
        } else {
            m - 1
        };
        assert(now.objects@[k] == full[m]);
    } else if exists_in(now.objects@, other) {
        let k = choose|k: int| 0 <= k < now.objects@.len() && (#[trigger] now.objects@[k]).id == other;
        let x = if k < at {
            k
        } else {
            k + 1
        };
        assert(now.objects@[k] == full[x]);
        if x < before.objects@.len() {
            assert(full[x] == before.objects@[x]);
            if x < at {
                assert(before.objects@[x].id != before.objects@[at].id);
            } else {
                assert(before.objects@[at].id != before.objects@[x].id);
            }
        } else {
            let j = x - before.objects@.len();
            assert(is_brick(
                full[before.objects@.len() + j],
                bricks[j],
                source,
                folder,
                j as nat,
                ObjectId(((folder + 1) as u64 + j) as u64),
            ));
            assert(before.objects@[m].id.0 < before.next_id);
        }
    }
}

/// Rebuilding clears the folder and nothing else: an object stays just where
/// it lies elsewhere.
pub proof fn law_rebuilding_clears_the_folder(objects: Seq<Object>, folder: u64, n: nat)
    requires
        n <= objects.len(),
    ensures
        forall|k: int|
            0 <= k < unfiled(objects, folder, n).len() ==> (#[trigger] unfiled(
                objects,
                folder,
                n,
            )[k]).folder != Some(folder),
        forall|i: int|
            0 <= i < n && (#[trigger] objects[i]).folder != Some(folder) ==> unfiled(
                objects,
                folder,
                n,
            ).contains(objects[i]),
        forall|k: int|
            0 <= k < unfiled(objects, folder, n).len() ==> objects.contains(
                #[trigger] unfiled(objects, folder, n)[k],
            ),
    decreases n,
{
    if n > 0 {
        law_rebuilding_clears_the_folder(objects, folder, (n - 1) as nat);
        let before = unfiled(objects, folder, (n - 1) as nat);
        let now = unfiled(objects, folder, n);
        assert forall|i: int| 0 <= i < n && (#[trigger] objects[i]).folder != Some(
            folder,
        ) implies now.contains(objects[i]) by {
            if i < n - 1 {
                assert(before.contains(objects[i]));
                let k = choose|k: int| 0 <= k < before.len() && before[k] == objects[i];
                assert(now[k] == objects[i]);
            } else {
                assert(now[before.len() as int] == objects[i]);
            }
        }
        assert forall|k: int| 0 <= k < now.len() implies objects.contains(#[trigger] now[k]) by {
            if k < before.len() {
                assert(now[k] == before[k]);
            } else {
                assert(now[k] == objects[n - 1]);
            }
        }
    }
}

} // verus!
