//! The welded view of a triangle mesh: coplanar triangles grouped into
//! faces, and the outline of each face ordered into a closed loop.

use vstd::prelude::*;

verus! {

/// One face of the welded topology: the triangles that make it up, and the
/// unordered welded edges of its outline.
#[derive(Debug)]
pub struct FaceGroup {
    pub tris: Vec<usize>,
    pub outline: Vec<(usize, usize)>,
}

/// Welded topology of a mesh. `weld_of` sends a mesh vertex to its welded
/// vertex, `tris` lists each triangle by welded vertices.
#[derive(Debug)]
pub struct Topology {
    pub vert_count: usize,
    pub weld_of: Vec<usize>,
    pub tris: Vec<[usize; 3]>,
    pub faces: Vec<FaceGroup>,
}

/// An undirected edge, smaller end first.
pub open spec fn edge_key(a: usize, b: usize) -> (usize, usize) {
    if a <= b {
        (a, b)
    } else {
        (b, a)
    }
}

/// An undirected edge, smaller end first.
pub fn ekey(a: usize, b: usize) -> (r: (usize, usize))
    ensures
        r == edge_key(a, b),
{
    if a <= b {
        (a, b)
    } else {
        (b, a)
    }
}

/// The ends opposite `v` over the edges of `outline`, in outline order.
pub open spec fn neighbors(outline: Seq<(usize, usize)>, v: usize) -> Seq<usize>
    decreases outline.len(),
{
    if outline.len() == 0 {
        seq![]
    } else {
        let (a, b) = outline.last();
        let before = neighbors(outline.drop_last(), v);
        let with_b = if a == v { before.push(b) } else { before };
        if b == v { with_b.push(a) } else { with_b }
    }
}

/// Every vertex of the outline ends exactly two of its edges.
pub open spec fn two_regular(outline: Seq<(usize, usize)>) -> bool {
    forall|i: int| 0 <= i < outline.len() ==> {
        &&& neighbors(outline, (#[trigger] outline[i]).0).len() == 2
        &&& neighbors(outline, outline[i].1).len() == 2
    }
}

/// The vertex reached after `k` steps along the outline, starting at its
/// first edge and never turning back.
pub open spec fn trail(outline: Seq<(usize, usize)>, k: nat) -> usize
    decreases k,
{
    if k == 0 {
        outline[0].0
    } else if k == 1 {
        neighbors(outline, outline[0].0)[0]
    } else {
        let n = neighbors(outline, trail(outline, (k - 1) as nat));
        if n[0] == trail(outline, (k - 2) as nat) {
            n[1]
        } else {
            n[0]
        }
    }
}

/// The walk along the outline is back at its start after `m` steps, and not
/// before.
pub open spec fn closes_after(outline: Seq<(usize, usize)>, m: nat) -> bool {
    &&& m >= 1
    &&& trail(outline, m) == trail(outline, 0)
    &&& forall|k: nat| 1 <= k < m ==> #[trigger] trail(outline, k) != trail(outline, 0)
}

/// The outline as one closed loop, where it is one.
pub open spec fn loop_of(outline: Seq<(usize, usize)>) -> Option<Seq<usize>> {
    if outline.len() > 0 && two_regular(outline) && closes_after(outline, outline.len()) {
        Some(Seq::new(outline.len(), |k: int| trail(outline, k as nat)))
    } else {
        None
    }
}

/// `a` and `b` are the two ends of some edge of the outline.
pub open spec fn joined(outline: Seq<(usize, usize)>, a: usize, b: usize) -> bool {
    exists|i: int| 0 <= i < outline.len() && (#[trigger] outline[i] == (a, b)
        || outline[i] == (b, a))
}

/// How often `x` stands in `s`.
spec fn occurrences(s: Seq<usize>, x: usize) -> nat
    decreases s.len(),
{
    if s.len() == 0 {
        0
    } else {
        occurrences(s.drop_last(), x) + if s.last() == x { 1nat } else { 0 }
    }
}

proof fn lemma_occurrences_push(s: Seq<usize>, y: usize, x: usize)
    ensures
        occurrences(s.push(y), x) == occurrences(s, x) + if y == x { 1nat } else { 0 },
{
    assert(s.push(y).drop_last() =~= s);
}

proof fn lemma_occurrences_of_two(s: Seq<usize>, x: usize)
    requires
        s.len() == 2,
    ensures
        occurrences(s, x) == (if s[0] == x { 1int } else { 0 }) + (if s[1] == x { 1int } else { 0 }),
{
    reveal_with_fuel(occurrences, 3);
}

proof fn lemma_occurs_is_joined(outline: Seq<(usize, usize)>, v: usize, i: int)
    requires
        0 <= i < neighbors(outline, v).len(),
    ensures
        joined(outline, v, neighbors(outline, v)[i]),
    decreases outline.len(),
{
    if outline.len() > 0 {
        let (a, b) = outline.last();
        let last: int = outline.len() - 1;
        let before = neighbors(outline.drop_last(), v);
        if i < before.len() {
            lemma_occurs_is_joined(outline.drop_last(), v, i);
            let k = choose|k: int| 0 <= k < outline.drop_last().len() && (
            #[trigger] outline.drop_last()[k] == (v, before[i]) || outline.drop_last()[k] == (
                before[i],
                v,
            ));
            assert(outline[k] == outline.drop_last()[k]);
        } else {
            assert(outline[last] == (a, b));
        }
    }
}

/// Neighborhood counts both ways: from `a` to `b` as often as from `b` to
/// `a`, and to itself an even number of times.
proof fn lemma_neighbors_symmetric(outline: Seq<(usize, usize)>, a: usize, b: usize)
    ensures
        occurrences(neighbors(outline, a), b) == occurrences(neighbors(outline, b), a),
        occurrences(neighbors(outline, a), a) % 2 == 0,
    decreases outline.len(),
{
    if outline.len() > 0 {
        let rest = outline.drop_last();
        lemma_neighbors_symmetric(rest, a, b);
        let (p, q) = outline.last();
        let na = neighbors(rest, a);
        let nb = neighbors(rest, b);
        lemma_occurrences_push(na, q, b);
        lemma_occurrences_push(na, p, b);
        lemma_occurrences_push(na.push(q), p, b);
        lemma_occurrences_push(na, q, a);
        lemma_occurrences_push(na, p, a);
        lemma_occurrences_push(na.push(q), p, a);
        lemma_occurrences_push(nb, q, a);
        lemma_occurrences_push(nb, p, a);
        lemma_occurrences_push(nb.push(q), p, a);
    }
}

/// Every vertex of the walk is an end of the outline, so it has two
/// neighbors, one of which the walk came from and the other it goes to.
proof fn lemma_trail_step(outline: Seq<(usize, usize)>, k: nat)
    requires
        outline.len() > 0,
        two_regular(outline),
    ensures
        neighbors(outline, trail(outline, k)).len() == 2,
        joined(outline, trail(outline, k), trail(outline, k + 1)),
        k >= 1 ==> {
            let n = neighbors(outline, trail(outline, k));
            let (p, x) = (trail(outline, (k - 1) as nat), trail(outline, k + 1));
            ||| n[0] == p && n[1] == x
            ||| n[1] == p && n[0] == x
        },
    decreases k,
{
    let v = trail(outline, k);
    if k == 0 {
        assert(outline[0].0 == v);
        lemma_occurs_is_joined(outline, v, 0);
    } else {
        let p = trail(outline, (k - 1) as nat);
        lemma_trail_step(outline, (k - 1) as nat);
        assert(joined(outline, p, v));
        let n = neighbors(outline, v);
        assert(n.len() == 2);
        let np = neighbors(outline, p);
        assert(np[0] == v || np[1] == v);
        lemma_occurrences_of_two(np, v);
        lemma_occurrences_of_two(n, p);
        lemma_neighbors_symmetric(outline, p, v);
        assert(n[0] == p || n[1] == p);
        lemma_occurs_is_joined(outline, v, 0);
        lemma_occurs_is_joined(outline, v, 1);
    }
}

/// The walk meets no vertex twice before it is back at its start.
proof fn lemma_trail_distinct(outline: Seq<(usize, usize)>, m: nat)
    requires
        outline.len() > 0,
        two_regular(outline),
        forall|k: nat| 1 <= k < m ==> #[trigger] trail(outline, k) != trail(outline, 0),
    ensures
        forall|i: nat, j: nat|
            i < j < m ==> #[trigger] trail(outline, i) != #[trigger] trail(outline, j),
    decreases m,
{
    if m >= 2 {
        let e = (m - 1) as nat;
        lemma_trail_distinct(outline, e);
        let x = trail(outline, e);
        assert forall|j: nat| j < e implies #[trigger] trail(outline, j) != x by {
            if trail(outline, j) == x && j >= 1 {
                let last = (e - 1) as nat;
                let c = trail(outline, last);
                lemma_trail_step(outline, last);
                lemma_trail_step(outline, j);
                lemma_neighbors_symmetric(outline, c, x);
                lemma_neighbors_symmetric(outline, c, c);
                lemma_occurrences_of_two(neighbors(outline, c), x);
                lemma_occurrences_of_two(neighbors(outline, c), c);
                lemma_occurrences_of_two(neighbors(outline, x), c);
                if j == last {
                    let p = trail(outline, (last - 1) as nat);
                    assert(p == c);
                    assert(false);
                } else {
                    let before = trail(outline, (j - 1) as nat);
                    let after = trail(outline, j + 1);
                    assert(before != c);
                    assert(c == after);
                    assert(j + 1 == last);
                    assert(false);
                }
            }
        }
    }
}

/// The edges of an outline, whichever way each is written.
pub open spec fn outline_edges(outline: Seq<(usize, usize)>) -> Seq<(usize, usize)> {
    Seq::new(outline.len(), |k: int| edge_key(outline[k].0, outline[k].1))
}

/// The edges along a closed loop.
pub open spec fn loop_edges(l: Seq<usize>) -> Seq<(usize, usize)> {
    Seq::new(
        l.len(),
        |k: int|
            edge_key(
                l[k],
                l[if k + 1 < l.len() {
                    k + 1
                } else {
                    0
                }],
            ),
    )
}

proof fn lemma_same_edges(outline: Seq<(usize, usize)>)
    requires
        loop_of(outline) is Some,
        loop_of(outline)->0.no_duplicates(),
    ensures
        outline_edges(outline).to_multiset() == loop_edges(loop_of(outline)->0).to_multiset(),
{
    let n = outline.len();
    let l = loop_of(outline)->0;
    let have = outline_edges(outline);
    let walked = loop_edges(l);
    assert forall|k: int| 0 <= k < n implies have.contains(#[trigger] walked[k]) by {
        lemma_trail_step(outline, k as nat);
        let (a, b) = (trail(outline, k as nat), trail(outline, (k + 1) as nat));
        let i = choose|i: int| 0 <= i < outline.len() && (#[trigger] outline[i] == (a, b)
            || outline[i] == (b, a));
        assert(have[i] == walked[k]);
    }
    if n == 1 {
        assert(have.contains(walked[0]));
        assert(have =~= walked);
    } else if n == 2 {
        reveal_with_fuel(neighbors, 3);
        lemma_trail_step(outline, 1);
        assert(l[0] != l[1]);
        assert(outline.drop_last().drop_last() =~= seq![]);
        assert(outline.drop_last().last() == outline[0]);
        assert(have =~= walked);
    } else {
        broadcast use vstd::seq_lib::group_to_multiset_ensures;

        assert(walked.no_duplicates()) by {
            assert forall|i: int, k: int|
                0 <= i < walked.len() && 0 <= k < walked.len() && i != k implies walked[i]
                != walked[k] by {
                lemma_loop_edges_differ(l, if i < k { i } else { k }, if i < k { k } else { i });
            }
        }
        walked.lemma_multiset_has_no_duplicates();
        let (m, w) = (have.to_multiset(), walked.to_multiset());
        have.to_multiset_ensures();
        walked.to_multiset_ensures();
        assert forall|e: (usize, usize)| w.count(e) <= m.count(e) by {
            if w.count(e) > 0 {
                assert(w.contains(e));
                assert(walked.contains(e));
                let k = choose|k: int| 0 <= k < walked.len() && walked[k] == e;
                assert(have.contains(walked[k]));
            }
        }
        assert(w.subset_of(m));
        let rest = m.sub(w);
        assert(rest.len() == 0);
        assert(m =~= w) by {
            assert forall|e: (usize, usize)| m.count(e) == w.count(e) by {
                assert(rest.count(e) <= rest.len());
            }
        }
    }
}

proof fn lemma_loop_edges_differ(l: Seq<usize>, i: int, k: int)
    requires
        l.len() >= 3,
        l.no_duplicates(),
        0 <= i < k < l.len(),
    ensures
        loop_edges(l)[i] != loop_edges(l)[k],
{
    let next = if k + 1 < l.len() {
        k + 1
    } else {
        0
    };
    assert(l[i] != l[k]);
    if l[i] == l[next] {
        assert(i == next);
        assert(l[i + 1] != l[k]);
    }
}

/// A loop visits each of its vertices once, and consecutive vertices, the
/// last and the first included, are joined by an edge of the outline. The
/// edges along it are those of the outline, each as often.
pub proof fn law_loop_is_simple_and_closed(outline: Seq<(usize, usize)>)
    requires
        loop_of(outline) is Some,
    ensures
        ({
            let l = loop_of(outline)->0;
            &&& l.len() == outline.len()
            &&& l.no_duplicates()
            &&& forall|k: int| 0 <= k < l.len() - 1 ==> joined(outline, #[trigger] l[k], l[k + 1])
            &&& joined(outline, l.last(), l[0])
            &&& loop_edges(l).to_multiset() == outline_edges(outline).to_multiset()
        }),
{
    let n = outline.len();
    let l = loop_of(outline)->0;
    lemma_trail_distinct(outline, n);
    assert forall|i: int, j: int| 0 <= i < l.len() && 0 <= j < l.len() && i != j implies l[i]
        != l[j] by {
        if i < j {
            assert(trail(outline, i as nat) != trail(outline, j as nat));
        } else {
            assert(trail(outline, j as nat) != trail(outline, i as nat));
        }
    }
    assert forall|k: int| 0 <= k < l.len() - 1 implies joined(outline, #[trigger] l[k], l[k + 1]) by {
        lemma_trail_step(outline, k as nat);
    }
    lemma_trail_step(outline, (n - 1) as nat);
    lemma_same_edges(outline);
}

fn neighbors_of(outline: &Vec<(usize, usize)>, v: usize) -> (r: Vec<usize>)
    ensures
        r@ == neighbors(outline@, v),
{
    let mut r: Vec<usize> = Vec::new();
    let mut i: usize = 0;
    while i < outline.len()
        invariant
            i <= outline@.len(),
            r@ == neighbors(outline@.take(i as int), v),
        decreases outline@.len() - i,
    {
        let (a, b) = outline[i];
        if a == v {
            r.push(b);
        }
        if b == v {
            r.push(a);
        }
        i += 1;
        assert(outline@.take(i as int).drop_last() =~= outline@.take(i - 1));
    }
    assert(outline@.take(i as int) =~= outline@);
    r
}

fn is_two_regular(outline: &Vec<(usize, usize)>) -> (r: bool)
    ensures
        r == two_regular(outline@),
{
    let mut i: usize = 0;
    while i < outline.len()
        invariant
            i <= outline@.len(),
            forall|k: int| 0 <= k < i ==> {
                &&& neighbors(outline@, (#[trigger] outline@[k]).0).len() == 2
                &&& neighbors(outline@, outline@[k].1).len() == 2
            },
        decreases outline@.len() - i,
    {
        if neighbors_of(outline, outline[i].0).len() != 2 || neighbors_of(
            outline,
            outline[i].1,
        ).len() != 2 {
            assert(neighbors(outline@, outline@[i as int].0).len() != 2 || neighbors(
                outline@,
                outline@[i as int].1,
            ).len() != 2);
            return false;
        }
        i += 1;
    }
    true
}

/// Orders an outline into one closed loop of welded vertices, in the
/// direction of its first edge. `None` if it is not a single loop (a wall
/// face with a window hole has two).
pub fn outline_loop(outline: &Vec<(usize, usize)>) -> (r: Option<Vec<usize>>)
    ensures
        r is Some == loop_of(outline@) is Some,
        r matches Some(l) ==> l@ == loop_of(outline@)->0,
{
    if outline.len() == 0 || !is_two_regular(outline) {
        return None;
    }
    let start = outline[0].0;
    proof {
        lemma_trail_step(outline@, 0);
    }
    let mut ordered: Vec<usize> = vec![start];
    let mut prev = start;
    let mut cur = neighbors_of(outline, start)[0];
    assert(ordered@ =~= Seq::new(1, |k: int| trail(outline@, k as nat)));
    while cur != start && ordered.len() < outline.len()
        invariant
            outline@.len() > 0,
            two_regular(outline@),
            start == trail(outline@, 0),
            1 <= ordered@.len() <= outline@.len(),
            ordered@ == Seq::new(ordered@.len(), |k: int| trail(outline@, k as nat)),
            prev == trail(outline@, (ordered@.len() - 1) as nat),
            cur == trail(outline@, ordered@.len()),
            forall|k: nat| 1 <= k < ordered@.len() ==> #[trigger] trail(outline@, k) != start,
        decreases outline@.len() - ordered@.len(),
    {
        let ghost k = ordered@.len();
        ordered.push(cur);
        assert(ordered@ =~= Seq::new(ordered@.len(), |k: int| trail(outline@, k as nat)));
        proof {
            lemma_trail_step(outline@, k);
        }
        let n = neighbors_of(outline, cur);
        let next = if n[0] == prev { n[1] } else { n[0] };
        prev = cur;
        cur = next;
    }
    if cur != start || ordered.len() != outline.len() {
        return None;
    }
    Some(ordered)
}

/// The loop of face `face`, turned round where `against_normal` says that
/// the outline order runs clockwise seen from outside.
pub open spec fn face_loop_of(topo: Topology, face: int, against_normal: bool) -> Option<
    Seq<usize>,
> {
    if 0 <= face < topo.faces@.len() && loop_of(topo.faces@[face].outline@) is Some {
        let l = loop_of(topo.faces@[face].outline@)->0;
        Some(
            if against_normal {
                l.reverse()
            } else {
                l
            },
        )
    } else {
        None
    }
}

/// Orders a face's outline into one closed loop of welded vertices,
/// counter-clockwise seen from outside. `against_normal` says whether the
/// loop in outline order (see [`outline_loop`]) turns against the face
/// normal. `None` if the outline is not a single simple loop: such faces do
/// not support cut or bevel surgery.
pub fn face_loop(topo: &Topology, face: usize, against_normal: bool) -> (r: Option<Vec<usize>>)
    ensures
        r is Some == face_loop_of(*topo, face as int, against_normal) is Some,
        r matches Some(l) ==> l@ == face_loop_of(*topo, face as int, against_normal)->0,
{
    if face >= topo.faces.len() {
        return None;
    }
    match outline_loop(&topo.faces[face].outline) {
        None => None,
        Some(l) => {
            if against_normal {
                Some(reversed(&l))
            } else {
                Some(l)
            }
        },
    }
}

/// The vertices in the opposite order.
pub(crate) fn reversed(l: &Vec<usize>) -> (r: Vec<usize>)
    ensures
        r@ == l@.reverse(),
{
    let mut r: Vec<usize> = Vec::new();
    let mut i: usize = l.len();
    while i > 0
        invariant
            i <= l@.len(),
            r@.len() == l@.len() - i,
            forall|k: int| 0 <= k < r@.len() ==> r@[k] == l@[l@.len() - 1 - k],
        decreases i,
    {
        i -= 1;
        r.push(l[i]);
    }
    assert(r@ =~= l@.reverse());
    r
}

/// An edge is the same whichever end is named first; its key names both
/// ends, the smaller one first.
pub proof fn law_edges_have_no_direction(a: usize, b: usize)
    ensures
        edge_key(a, b) == edge_key(b, a),
        edge_key(a, b).0 <= edge_key(a, b).1,
        edge_key(a, b) == (a, b) || edge_key(a, b) == (b, a),
{
}

/// A face turned round is met at the same vertices in the opposite order.
pub proof fn law_turned_face_runs_backwards(topo: Topology, face: int, i: int)
    requires
        face_loop_of(topo, face, false) is Some,
        0 <= i < face_loop_of(topo, face, false)->0.len(),
    ensures
        face_loop_of(topo, face, true) is Some,
        ({
            let l = face_loop_of(topo, face, false)->0;
            let back = face_loop_of(topo, face, true)->0;
            back.len() == l.len() && back[i] == l[l.len() - 1 - i]
        }),
{
}

/// A face has a loop, whichever way it is turned, just where its outline has
/// one, and the loop begins at the first end of the first outline edge.
pub proof fn law_loops_follow_the_outline(topo: Topology, face: int)
    ensures
        face_loop_of(topo, face, false) is Some <==> 0 <= face < topo.faces@.len() && loop_of(
            topo.faces@[face].outline@,
        ) is Some,
        face_loop_of(topo, face, false) matches Some(l) ==> l.len() > 0 && l[0]
            == topo.faces@[face].outline@[0].0,
{
}

} // verus!
