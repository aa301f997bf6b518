//! One Catmull-Clark round, as far as it is counting and naming: which
//! points the refined mesh has, by which rule each is placed, and how the
//! corner quads connect them.

use vstd::prelude::*;
use crate::mesh_data::{compact, is_compacted, MeshData};
use crate::topology::{
    edge_key, ekey, face_loop, face_loop_of, joined, law_loop_is_simple_and_closed, loop_of,
    Topology,
};

verus! {

/// Meshes with more indices than this are not subdivided further.
pub const INDEX_VALVE: usize = 600_000;

/// Is another round due, after `done` of `levels` rounds have left a mesh
/// with this many indices? A valve stops runaway growth on dense meshes.
pub fn wants_round(done: u8, levels: u8, indices: usize) -> (r: bool)
    ensures
        r == (done < levels && indices <= INDEX_VALVE),
{
    done < levels && indices <= INDEX_VALVE
}

/// The triangles of a face, the first `n` of them, as faces of their own.
pub open spec fn raw_triangles(topo: Topology, f: int, n: nat) -> Seq<Seq<usize>>
    decreases n,
{
    if n == 0 {
        seq![]
    } else {
        let t = topo.tris@[topo.faces@[f].tris@[n - 1] as int];
        raw_triangles(topo, f, (n - 1) as nat).push(seq![t[0], t[1], t[2]])
    }
}

/// The polygons that are refined: the loop of each face among the first
/// `upto`, or its triangles where it has no simple loop.
pub open spec fn cage_faces(topo: Topology, turned: Seq<bool>, upto: nat) -> Seq<Seq<usize>>
    decreases upto,
{
    if upto == 0 {
        seq![]
    } else {
        let f = upto - 1;
        let before = cage_faces(topo, turned, (upto - 1) as nat);
        match face_loop_of(topo, f, turned[f]) {
            Some(l) => before.push(l),
            None => before + raw_triangles(topo, f, topo.faces@[f].tris@.len()),
        }
    }
}

/// The faces as sequences.
pub open spec fn faces_view(faces: Seq<Vec<usize>>) -> Seq<Seq<usize>> {
    Seq::new(faces.len(), |i: int| faces[i]@)
}

/// The side of a face that starts at place `i`.
pub open spec fn side_key(face: Seq<usize>, i: int) -> (usize, usize) {
    edge_key(
        face[i],
        if i == face.len() - 1 {
            face[0]
        } else {
            face[i + 1]
        },
    )
}

/// `f`, once for each of its first `n` sides with the key `key`.
pub open spec fn sides_with(face: Seq<usize>, f: usize, n: nat, key: (usize, usize)) -> Seq<usize>
    decreases n,
{
    if n == 0 {
        seq![]
    } else {
        let before = sides_with(face, f, (n - 1) as nat, key);
        if side_key(face, n - 1) == key {
            before.push(f)
        } else {
            before
        }
    }
}

/// The faces at the edge `key`, among the first `upto`, once for each side.
pub open spec fn faces_at(faces: Seq<Seq<usize>>, upto: nat, key: (usize, usize)) -> Seq<usize>
    decreases upto,
{
    if upto == 0 {
        seq![]
    } else {
        let f = upto - 1;
        faces_at(faces, (upto - 1) as nat, key) + sides_with(
            faces[f],
            f as usize,
            faces[f].len(),
            key,
        )
    }
}

/// An edge and the faces at it.
#[derive(Debug)]
pub struct EdgeFaces {
    pub low: usize,
    pub high: usize,
    pub faces: Vec<usize>,
}

impl EdgeFaces {
    pub open spec fn key(self) -> (usize, usize) {
        (self.low, self.high)
    }
}

/// The order of edge keys.
pub open spec fn key_less(a: (usize, usize), b: (usize, usize)) -> bool {
    a.0 < b.0 || (a.0 == b.0 && a.1 < b.1)
}

/// Keys ascend strictly.
pub open spec fn ascending(table: Seq<EdgeFaces>) -> bool {
    forall|i: int, j: int|
        0 <= i < j < table.len() ==> key_less((#[trigger] table[i]).key(), (
        #[trigger] table[j]).key())
}

/// The table has the entry `key`.
pub open spec fn lists(table: Seq<EdgeFaces>, key: (usize, usize)) -> bool {
    exists|i: int| 0 <= i < table.len() && (#[trigger] table[i]).key() == key
}

/// `table` is the edge table of the faces: every edge once, in ascending
/// order, with the faces at it.
pub open spec fn is_edge_table(faces: Seq<Seq<usize>>, table: Seq<EdgeFaces>) -> bool {
    &&& ascending(table)
    &&& forall|i: int|
        0 <= i < table.len() ==> (#[trigger] table[i]).faces@ == faces_at(
            faces,
            faces.len(),
            table[i].key(),
        ) && table[i].faces@.len() > 0
    &&& forall|f: int, i: int|
        #![trigger side_key(faces[f], i)]
        0 <= f < faces.len() && 0 <= i < faces[f].len() ==> lists(table, side_key(faces[f], i))
}

/// `table` lists exactly the sides seen so far whose smaller end is `low`,
/// each with its faces: all sides of the first `upto` faces, and the first
/// `n` sides of the next.
spec fn is_partial_table(
    faces: Seq<Seq<usize>>,
    upto: int,
    n: int,
    low: usize,
    table: Seq<EdgeFaces>,
) -> bool {
    &&& ascending(table)
    &&& forall|i: int|
        0 <= i < table.len() ==> (#[trigger] table[i]).low == low && table[i].faces@
            == partial_faces(faces, upto, n, table[i].key()) && table[i].faces@.len() > 0
    &&& forall|key: (usize, usize)|
        key.0 == low && partial_faces(faces, upto, n, key).len() > 0 ==> #[trigger] lists(
            table,
            key,
        )
}

/// Each bucket is the partial table of its smaller end.
spec fn are_partial_tables(
    faces: Seq<Seq<usize>>,
    upto: int,
    n: int,
    buckets: Seq<Vec<EdgeFaces>>,
) -> bool {
    forall|l: int|
        0 <= l < buckets.len() ==> is_partial_table(
            faces,
            upto,
            n,
            l as usize,
            (#[trigger] buckets[l])@,
        )
}

spec fn partial_faces(
    faces: Seq<Seq<usize>>,
    upto: int,
    n: int,
    key: (usize, usize),
) -> Seq<usize> {
    if upto < faces.len() {
        faces_at(faces, upto as nat, key) + sides_with(faces[upto], upto as usize, n as nat, key)
    } else {
        faces_at(faces, upto as nat, key)
    }
}

/// Records one more side.
fn record(table: &mut Vec<EdgeFaces>, key: (usize, usize), f: usize)
    requires
        ascending(old(table)@),
    ensures
        ascending(final(table)@),
        lists(final(table)@, key),
        forall|k: (usize, usize)|
            k != key ==> #[trigger] lists(final(table)@, k) == lists(old(table)@, k),
        forall|i: int|
            #![trigger final(table)@[i]]
            0 <= i < final(table)@.len() ==> {
                let e = final(table)@[i];
                if e.key() != key {
                    exists|j: int|
                        0 <= j < old(table)@.len() && (#[trigger] old(table)@[j]).key() == e.key()
                            && old(table)@[j].faces@ == e.faces@
                } else if lists(old(table)@, key) {
                    exists|j: int|
                        0 <= j < old(table)@.len() && (#[trigger] old(table)@[j]).key() == key
                            && e.faces@ == old(table)@[j].faces@.push(f)
                } else {
                    e.faces@ == seq![f]
                }
            },
{
    let ghost before = table@;
    let mut i: usize = 0;
    while i < table.len() && (table[i].low < key.0 || (table[i].low == key.0 && table[i].high
        < key.1))
        invariant
            i <= table@.len(),
            *table == *old(table),
            forall|k: int| 0 <= k < i ==> key_less((#[trigger] table@[k]).key(), key),
        decreases table@.len() - i,
    {
        i += 1;
    }
    if i < table.len() && table[i].low == key.0 && table[i].high == key.1 {
        let ghost was = table@[i as int].faces@;
        assert(before[i as int].key() == key);
        let mut faces: Vec<usize> = Vec::new();
        std::mem::swap(&mut table[i].faces, &mut faces);
        faces.push(f);
        table.set(i, EdgeFaces { low: key.0, high: key.1, faces });
        proof {
            let now = table@;
            assert(now.len() == before.len());
            assert forall|k: int| 0 <= k < now.len() && k != i implies #[trigger] now[k]
                == before[k] by {}
            assert(now[i as int].key() == key);
            assert(now[i as int].faces@ == was.push(f));
            assert(lists(before, key));
            assert(ascending(now)) by {
                assert forall|a: int, b: int| 0 <= a < b < now.len() implies key_less(
                    (#[trigger] now[a]).key(),
                    (#[trigger] now[b]).key(),
                ) by {
                    assert(now[a].key() == before[a].key());
                    assert(now[b].key() == before[b].key());
                }
            }
            assert forall|k: (usize, usize)| k != key implies #[trigger] lists(now, k) == lists(
                before,
                k,
            ) by {
                if lists(now, k) {
                    let j = choose|j: int| 0 <= j < now.len() && (#[trigger] now[j]).key() == k;
                    assert(before[j].key() == k);
                }
                if lists(before, k) {
                    let j = choose|j: int|
                        0 <= j < before.len() && (#[trigger] before[j]).key() == k;
                    assert(now[j].key() == k);
                }
            }
            assert forall|j: int| #![trigger now[j]] 0 <= j < now.len() implies {
                let e = now[j];
                if e.key() != key {
                    exists|m: int|
                        0 <= m < before.len() && (#[trigger] before[m]).key() == e.key()
                            && before[m].faces@ == e.faces@
                } else {
                    exists|m: int|
                        0 <= m < before.len() && (#[trigger] before[m]).key() == key && e.faces@
                            == before[m].faces@.push(f)
                }
            } by {
                if j == i {
                    assert(before[i as int].faces@.push(f) == now[j].faces@);
                } else {
                    assert(before[j].key() == now[j].key());
                    if now[j].key() == key {
                        if j < i {
                            assert(key_less(before[j].key(), before[i as int].key()));
                        } else {
                            assert(key_less(before[i as int].key(), before[j].key()));
                        }
                    }
                }
            }
        }
    } else {
        table.insert(i, EdgeFaces { low: key.0, high: key.1, faces: vec![f] });
        proof {
            let now = table@;
            assert(now =~= before.insert(i as int, now[i as int]));
            assert(now[i as int].key() == key);
            assert(now[i as int].faces@ =~= seq![f]);
            assert forall|j: int| 0 <= j < before.len() implies !(#[trigger] before[j].key()
                == key) by {
                if j < i {
                    assert(key_less(before[j].key(), key));
                } else if j > i {
                    assert(key_less(before[i as int].key(), before[j].key()));
                }
            }
            assert(!lists(before, key));
            assert(ascending(now)) by {
                assert forall|a: int, b: int| 0 <= a < b < now.len() implies key_less(
                    (#[trigger] now[a]).key(),
                    (#[trigger] now[b]).key(),
                ) by {
                    let x = if a < i { a } else { a - 1 };
                    let y = if b < i { b } else { b - 1 };
                    if a != i {
                        assert(now[a] == before[x]);
                    }
                    if b != i {
                        assert(now[b] == before[y]);
                    }
                    if a == i {
                        if y > i {
                            assert(key_less(before[i as int].key(), before[y].key()));
                        }
                    } else if b == i {
                        assert(key_less(before[x].key(), key));
                    } else {
                        assert(key_less(before[x].key(), before[y].key()));
                    }
                }
            }
            assert forall|k: (usize, usize)| k != key implies #[trigger] lists(now, k) == lists(
                before,
                k,
            ) by {
                if lists(now, k) {
                    let j = choose|j: int| 0 <= j < now.len() && (#[trigger] now[j]).key() == k;
                    let m = if j < i { j } else { j - 1 };
                    assert(before[m].key() == k);
                }
                if lists(before, k) {
                    let j = choose|j: int|
                        0 <= j < before.len() && (#[trigger] before[j]).key() == k;
                    let m = if j < i { j } else { j + 1 };
                    assert(now[m] == before[j]);
                }
            }
            assert forall|j: int| #![trigger now[j]] 0 <= j < now.len() implies {
                let e = now[j];
                if e.key() != key {
                    exists|m: int|
                        0 <= m < before.len() && (#[trigger] before[m]).key() == e.key()
                            && before[m].faces@ == e.faces@
                } else {
                    e.faces@ == seq![f]
                }
            } by {
                if j != i {
                    let m = if j < i { j } else { j - 1 };
                    assert(now[j] == before[m]);
                    assert(before[m].key() != key);
                }
            }
        }
    }
}

proof fn lemma_record(
    faces: Seq<Seq<usize>>,
    upto: int,
    n: int,
    low: usize,
    before: Seq<EdgeFaces>,
    now: Seq<EdgeFaces>,
)
    requires
        0 <= upto < faces.len() <= usize::MAX,
        0 <= n < faces[upto].len(),
        low == side_key(faces[upto], n).0,
        is_partial_table(faces, upto, n, low, before),
        ascending(now),
        lists(now, side_key(faces[upto], n)),
        forall|k: (usize, usize)|
            k != side_key(faces[upto], n) ==> #[trigger] lists(now, k) == lists(before, k),
        forall|i: int|
            #![trigger now[i]]
            0 <= i < now.len() ==> {
                let e = now[i];
                let key = side_key(faces[upto], n);
                if e.key() != key {
                    exists|j: int|
                        0 <= j < before.len() && (#[trigger] before[j]).key() == e.key()
                            && before[j].faces@ == e.faces@
                } else if lists(before, key) {
                    exists|j: int|
                        0 <= j < before.len() && (#[trigger] before[j]).key() == key && e.faces@
                            == before[j].faces@.push(upto as usize)
                } else {
                    e.faces@ == seq![upto as usize]
                }
            },
    ensures
        is_partial_table(faces, upto, n + 1, low, now),
{
    let key = side_key(faces[upto], n);
    assert forall|k: (usize, usize)| partial_faces(faces, upto, n + 1, k) == if k == key {
        partial_faces(faces, upto, n, k).push(upto as usize)
    } else {
        partial_faces(faces, upto, n, k)
    } by {
        let a = faces_at(faces, upto as nat, k);
        let b = sides_with(faces[upto], upto as usize, n as nat, k);
        assert(a + b.push(upto as usize) =~= (a + b).push(upto as usize));
    }
    assert forall|i: int| 0 <= i < now.len() implies (#[trigger] now[i]).low == low
        && now[i].faces@ == partial_faces(faces, upto, n + 1, now[i].key())
        && now[i].faces@.len() > 0 by {
        let e = now[i];
        if e.key() != key {
            let j = choose|j: int|
                0 <= j < before.len() && (#[trigger] before[j]).key() == e.key()
                    && before[j].faces@ == e.faces@;
            assert(before[j].faces@ == partial_faces(faces, upto, n, e.key()));
        } else if lists(before, key) {
            let j = choose|j: int|
                0 <= j < before.len() && (#[trigger] before[j]).key() == key && e.faces@
                    == before[j].faces@.push(upto as usize);
            assert(before[j].faces@ == partial_faces(faces, upto, n, key));
        } else {
            assert(partial_faces(faces, upto, n, key).len() == 0);
            assert(partial_faces(faces, upto, n, key) =~= seq![]);
            assert(seq![].push(upto as usize) =~= seq![upto as usize]);
        }
    }
    assert forall|k: (usize, usize)|
        k.0 == low && partial_faces(faces, upto, n + 1, k).len() > 0 implies #[trigger] lists(
        now,
        k,
    ) by {
        if k != key {
            assert(lists(before, k));
        }
    }
}

/// A side that does not touch a bucket leaves its table as it was.
proof fn lemma_other_bucket(
    faces: Seq<Seq<usize>>,
    upto: int,
    n: int,
    low: usize,
    table: Seq<EdgeFaces>,
)
    requires
        0 <= upto < faces.len() <= usize::MAX,
        0 <= n < faces[upto].len(),
        low != side_key(faces[upto], n).0,
        is_partial_table(faces, upto, n, low, table),
    ensures
        is_partial_table(faces, upto, n + 1, low, table),
{
    assert forall|k: (usize, usize)| k.0 == low implies #[trigger] partial_faces(
        faces,
        upto,
        n + 1,
        k,
    ) == partial_faces(faces, upto, n, k) by {}
    assert forall|i: int| 0 <= i < table.len() implies (#[trigger] table[i]).low == low
        && table[i].faces@ == partial_faces(faces, upto, n + 1, table[i].key())
        && table[i].faces@.len() > 0 by {
        assert(table[i].key().0 == low);
    }
    assert forall|k: (usize, usize)|
        k.0 == low && partial_faces(faces, upto, n + 1, k).len() > 0 implies #[trigger] lists(
        table,
        k,
    ) by {
        assert(partial_faces(faces, upto, n, k).len() > 0);
    }
}

/// All sides of a face seen is the same as none of the next.
proof fn lemma_next_face(
    faces: Seq<Seq<usize>>,
    upto: int,
    low: usize,
    table: Seq<EdgeFaces>,
)
    requires
        0 <= upto < faces.len() <= usize::MAX,
        is_partial_table(faces, upto, faces[upto].len() as int, low, table),
    ensures
        is_partial_table(faces, upto + 1, 0, low, table),
{
    let n = faces[upto].len() as int;
    assert forall|key: (usize, usize)| #[trigger] partial_faces(faces, upto + 1, 0, key)
        == partial_faces(faces, upto, n, key) by {
        if upto + 1 < faces.len() {
            assert(sides_with(faces[upto + 1], (upto + 1) as usize, 0, key) =~= seq![]);
            assert(faces_at(faces, (upto + 1) as nat, key) + seq![] =~= faces_at(
                faces,
                (upto + 1) as nat,
                key,
            ));
        }
    }
    assert forall|k: int| 0 <= k < table.len() implies (#[trigger] table[k]).low == low
        && table[k].faces@ == partial_faces(faces, upto + 1, 0, table[k].key())
        && table[k].faces@.len() > 0 by {
        assert(table[k].faces@ == partial_faces(faces, upto, n, table[k].key()));
    }
    assert forall|key: (usize, usize)|
        key.0 == low && partial_faces(faces, upto + 1, 0, key).len() > 0 implies
        #[trigger] lists(table, key) by {
        assert(partial_faces(faces, upto, n, key).len() > 0);
    }
}

/// Every vertex of the faces is below `count`.
pub open spec fn vertices_below(faces: Seq<Seq<usize>>, count: nat) -> bool {
    forall|f: int, i: int|
        0 <= f < faces.len() && 0 <= i < faces[f].len() ==> #[trigger] faces[f][i] < count
}

/// The edges of the faces, in ascending order, with the faces at each.
pub fn edge_table(faces: &Vec<Vec<usize>>, count: usize) -> (table: Vec<EdgeFaces>)
    requires
        vertices_below(faces_view(faces@), count as nat),
    ensures
        is_edge_table(faces_view(faces@), table@),
{
    let ghost fv = faces_view(faces@);
    let mut buckets: Vec<Vec<EdgeFaces>> = Vec::new();
    let total: usize = faces.len();
    while buckets.len() < count
        invariant
            buckets@.len() <= count,
            are_partial_tables(fv, 0, 0, buckets@),
        decreases count - buckets@.len(),
    {
        let empty: Vec<EdgeFaces> = Vec::new();
        let ghost was = buckets@;
        buckets.push(empty);
        assert forall|l: int| 0 <= l < buckets@.len() implies is_partial_table(
            fv,
            0,
            0,
            l as usize,
            (#[trigger] buckets@[l])@,
        ) by {
            if l < was.len() {
                assert(was[l] == buckets@[l]);
            }
        }
    }
    let mut f: usize = 0;
    while f < faces.len()
        invariant
            f <= faces@.len(),
            total == faces@.len(),
            fv == faces_view(faces@),
            vertices_below(fv, count as nat),
            buckets@.len() == count,
            are_partial_tables(fv, f as int, 0, buckets@),
        decreases faces@.len() - f,
    {
        let face = &faces[f];
        assert(fv[f as int] == face@);
        let mut i: usize = 0;
        while i < face.len()
            invariant
                f < faces@.len(),
                total == faces@.len(),
                fv == faces_view(faces@),
                fv[f as int] == face@,
                vertices_below(fv, count as nat),
                buckets@.len() == count,
                i <= face@.len(),
                are_partial_tables(fv, f as int, i as int, buckets@),
            decreases face@.len() - i,
        {
            let j: usize = if i == face.len() - 1 {
                0
            } else {
                i + 1
            };
            assert(fv[f as int][i as int] < count && fv[f as int][j as int] < count);
            let key = ekey(face[i], face[j]);
            assert(key == side_key(fv[f as int], i as int));
            let ghost was = buckets@;
            assert(is_partial_table(fv, f as int, i as int, key.0, was[key.0 as int]@));
            record(&mut buckets[key.0], key, f);
            proof {
                lemma_record(
                    fv,
                    f as int,
                    i as int,
                    key.0,
                    was[key.0 as int]@,
                    buckets@[key.0 as int]@,
                );
                assert forall|l: int| 0 <= l < buckets@.len() implies is_partial_table(
                    fv,
                    f as int,
                    i + 1,
                    l as usize,
                    (#[trigger] buckets@[l])@,
                ) by {
                    if l != key.0 {
                        assert(buckets@[l] == was[l]);
                        lemma_other_bucket(fv, f as int, i as int, l as usize, was[l]@);
                    }
                }
            }
            i += 1;
        }
        proof {
            assert forall|l: int| 0 <= l < buckets@.len() implies is_partial_table(
                fv,
                f + 1,
                0,
                l as usize,
                (#[trigger] buckets@[l])@,
            ) by {
                lemma_next_face(fv, f as int, l as usize, buckets@[l]@);
            }
        }
        f += 1;
    }
    let mut table: Vec<EdgeFaces> = Vec::new();
    let mut l: usize = 0;
    while l < count
        invariant
            l <= count,
            f == fv.len(),
            buckets@.len() == count,
            forall|m: int|
                l <= m < count ==> is_partial_table(
                    fv,
                    f as int,
                    0,
                    m as usize,
                    (#[trigger] buckets@[m])@,
                ),
            ascending(table@),
            forall|k: int|
                0 <= k < table@.len() ==> (#[trigger] table@[k]).low < l && table@[k].faces@
                    == faces_at(fv, fv.len(), table@[k].key()) && table@[k].faces@.len() > 0,
            forall|key: (usize, usize)|
                key.0 < l && faces_at(fv, fv.len(), key).len() > 0 ==> #[trigger] lists(
                    table@,
                    key,
                ),
        decreases count - l,
    {
        let ghost was = table@;
        let ghost more = buckets@[l as int]@;
        assert(is_partial_table(fv, f as int, 0, l, more));
        table.append(&mut buckets[l]);
        proof {
            assert(table@ =~= was + more);
            assert forall|a: int, b: int| 0 <= a < b < table@.len() implies key_less(
                (#[trigger] table@[a]).key(),
                (#[trigger] table@[b]).key(),
            ) by {
                if b < was.len() {
                    assert(table@[a] == was[a] && table@[b] == was[b]);
                } else {
                    assert(table@[b] == more[b - was.len()]);
                    if a < was.len() {
                        assert(table@[a] == was[a]);
                    } else {
                        assert(table@[a] == more[a - was.len()]);
                    }
                }
            }
            assert forall|k: int| 0 <= k < table@.len() implies (#[trigger] table@[k]).low < l + 1
                && table@[k].faces@ == faces_at(fv, fv.len(), table@[k].key())
                && table@[k].faces@.len() > 0 by {
                if k < was.len() {
                    assert(table@[k] == was[k]);
                } else {
                    assert(table@[k] == more[k - was.len()]);
                }
            }
            assert forall|key: (usize, usize)|
                key.0 < l + 1 && faces_at(fv, fv.len(), key).len() > 0 implies #[trigger] lists(
                table@,
                key,
            ) by {
                if key.0 < l {
                    assert(lists(was, key));
                    let k = choose|k: int|
                        0 <= k < was.len() && (#[trigger] was[k]).key() == key;
                    assert(table@[k] == was[k]);
                } else {
                    assert(partial_faces(fv, f as int, 0, key).len() > 0);
                    assert(lists(more, key));
                    let k = choose|k: int|
                        0 <= k < more.len() && (#[trigger] more[k]).key() == key;
                    assert(table@[was.len() + k] == more[k]);
                }
            }
        }
        l += 1;
    }
    proof {
        assert forall|g: int, i: int|
            #![trigger side_key(fv[g], i)]
            0 <= g < fv.len() && 0 <= i < fv[g].len() implies lists(
            table@,
            side_key(fv[g], i),
        ) by {
            lemma_side_is_at(fv, fv.len(), g, i);
            let j = if i == fv[g].len() - 1 { 0 } else { i + 1 };
            assert(fv[g][i] < count && fv[g][j] < count);
        }
    }
    table
}

proof fn lemma_side_is_at(faces: Seq<Seq<usize>>, upto: nat, f: int, i: int)
    requires
        upto <= faces.len(),
        0 <= f < upto,
        0 <= i < faces[f].len(),
    ensures
        faces_at(faces, upto, side_key(faces[f], i)).len() > 0,
    decreases upto,
{
    if f == upto - 1 {
        lemma_side_with(faces[f], f as usize, faces[f].len(), i);
    } else {
        lemma_side_is_at(faces, (upto - 1) as nat, f, i);
    }
}

proof fn lemma_side_with(face: Seq<usize>, f: usize, n: nat, i: int)
    requires
        0 <= i < n,
    ensures
        sides_with(face, f, n, side_key(face, i)).len() > 0,
    decreases n,
{
    if i < n - 1 {
        lemma_side_with(face, f, (n - 1) as nat, i);
    }
}

/// `f`, once for each place among the first `n` of the face that holds `v`.
pub open spec fn places_of(face: Seq<usize>, f: usize, n: nat, v: usize) -> Seq<usize>
    decreases n,
{
    if n == 0 {
        seq![]
    } else {
        let before = places_of(face, f, (n - 1) as nat, v);
        if face[n - 1] == v {
            before.push(f)
        } else {
            before
        }
    }
}

/// The faces around the vertex `v`, among the first `upto`.
pub open spec fn faces_around(faces: Seq<Seq<usize>>, upto: nat, v: usize) -> Seq<usize>
    decreases upto,
{
    if upto == 0 {
        seq![]
    } else {
        let f = upto - 1;
        faces_around(faces, (upto - 1) as nat, v) + places_of(
            faces[f],
            f as usize,
            faces[f].len(),
            v,
        )
    }
}

/// The edges at the vertex `v`, among the first `n` of the table, by their
/// places in it.
pub open spec fn edges_around(table: Seq<EdgeFaces>, n: nat, v: usize) -> Seq<usize>
    decreases n,
{
    if n == 0 {
        seq![]
    } else {
        let before = edges_around(table, (n - 1) as nat, v);
        let e = (n - 1) as usize;
        let with_low = if table[n - 1].low == v { before.push(e) } else { before };
        if table[n - 1].high == v { with_low.push(e) } else { with_low }
    }
}

/// Those of the edges that do not lie between two faces.
pub open spec fn rim_edges(table: Seq<EdgeFaces>, edges: Seq<usize>) -> Seq<usize>
    decreases edges.len(),
{
    if edges.len() == 0 {
        seq![]
    } else {
        let before = rim_edges(table, edges.drop_last());
        if table[edges.last() as int].faces@.len() != 2 {
            before.push(edges.last())
        } else {
            before
        }
    }
}

/// The end of the edge that is not `v`.
pub open spec fn far_end(e: EdgeFaces, v: usize) -> usize {
    if e.low == v {
        e.high
    } else {
        e.low
    }
}

/// How an old vertex moves.
#[derive(Debug)]
pub enum VertexRule {
    /// On an open rim: along the curve through its two rim neighbors.
    Rim { one: usize, two: usize },
    /// Not at all: not a manifold corner, or no face around it.
    Pinned,
    /// By the faces and edges around it.
    Inner { faces: Vec<usize>, edges: Vec<usize> },
}

/// How an old vertex moves, by its surroundings.
pub enum RuleView {
    Rim { one: usize, two: usize },
    Pinned,
    Inner { faces: Seq<usize>, edges: Seq<usize> },
}

impl View for VertexRule {
    type V = RuleView;

    open spec fn view(&self) -> RuleView {
        match self {
            VertexRule::Rim { one, two } => RuleView::Rim { one: *one, two: *two },
            VertexRule::Pinned => RuleView::Pinned,
            VertexRule::Inner { faces, edges } => RuleView::Inner { faces: faces@, edges: edges@ },
        }
    }
}

/// The rule for the vertex `v`: two rim edges make it a rim vertex, any
/// other number but none pins it, as does having no face around.
pub open spec fn rule_of(faces: Seq<Seq<usize>>, table: Seq<EdgeFaces>, v: usize) -> RuleView {
    let around = faces_around(faces, faces.len(), v);
    let edges = edges_around(table, table.len(), v);
    let rim = rim_edges(table, edges);
    if rim.len() == 2 {
        RuleView::Rim {
            one: far_end(table[rim[0] as int], v),
            two: far_end(table[rim[1] as int], v),
        }
    } else if rim.len() > 0 || around.len() == 0 {
        RuleView::Pinned
    } else {
        RuleView::Inner { faces: around, edges }
    }
}

/// For each vertex below `count`, the faces around it.
fn gather_faces(faces: &Vec<Vec<usize>>, count: usize) -> (r: Vec<Vec<usize>>)
    requires
        vertices_below(faces_view(faces@), count as nat),
    ensures
        r@.len() == count,
        forall|v: usize|
            v < count ==> (#[trigger] r@[v as int])@ == faces_around(
                faces_view(faces@),
                faces@.len(),
                v,
            ),
{
    let ghost fv = faces_view(faces@);
    let mut r: Vec<Vec<usize>> = Vec::new();
    while r.len() < count
        invariant
            r@.len() <= count,
            forall|v: usize| v < r@.len() ==> (#[trigger] r@[v as int])@ == faces_around(fv, 0, v),
        decreases count - r@.len(),
    {
        let empty: Vec<usize> = Vec::new();
        r.push(empty);
    }
    let mut f: usize = 0;
    while f < faces.len()
        invariant
            f <= faces@.len(),
            fv == faces_view(faces@),
            vertices_below(fv, count as nat),
            r@.len() == count,
            forall|v: usize|
                v < count ==> (#[trigger] r@[v as int])@ == faces_around(fv, f as nat, v),
        decreases faces@.len() - f,
    {
        let face = &faces[f];
        assert(fv[f as int] == face@);
        let mut i: usize = 0;
        assert forall|v: usize| v < count implies (#[trigger] r@[v as int])@ == faces_around(
            fv,
            f as nat,
            v,
        ) + places_of(face@, f, 0, v) by {
            assert(r@[v as int]@ + seq![] =~= r@[v as int]@);
        }
        while i < face.len()
            invariant
                i <= face@.len(),
                f < faces@.len(),
                fv == faces_view(faces@),
                fv[f as int] == face@,
                vertices_below(fv, count as nat),
                r@.len() == count,
                forall|v: usize|
                    v < count ==> (#[trigger] r@[v as int])@ == faces_around(fv, f as nat, v)
                        + places_of(face@, f, i as nat, v),
            decreases face@.len() - i,
        {
            let w = face[i];
            assert(fv[f as int][i as int] < count);
            let ghost was = r@;
            r[w].push(f);
            i += 1;
            assert forall|v: usize| v < count implies (#[trigger] r@[v as int])@ == faces_around(
                fv,
                f as nat,
                v,
            ) + places_of(face@, f, i as nat, v) by {
                let a = faces_around(fv, f as nat, v);
                let b = places_of(face@, f, (i - 1) as nat, v);
                if v == w {
                    assert(was[v as int]@ == a + b);
                    assert((a + b).push(f) =~= a + b.push(f));
                } else {
                    assert(r@[v as int] == was[v as int]);
                }
            }
        }
        f += 1;
    }
    r
}

/// For each vertex below `count`, the edges at it.
fn gather_edges(table: &Vec<EdgeFaces>, count: usize) -> (r: Vec<Vec<usize>>)
    requires
        forall|i: int|
            0 <= i < table@.len() ==> (#[trigger] table@[i]).low < count && table@[i].high < count,
    ensures
        r@.len() == count,
        forall|v: usize|
            v < count ==> (#[trigger] r@[v as int])@ == edges_around(table@, table@.len(), v),
        forall|v: int, i: int|
            #![trigger r@[v]@[i]]
            0 <= v < count && 0 <= i < r@[v]@.len() ==> r@[v]@[i] < table@.len(),
{
    let mut r: Vec<Vec<usize>> = Vec::new();
    while r.len() < count
        invariant
            r@.len() <= count,
            forall|v: usize|
                v < r@.len() ==> (#[trigger] r@[v as int])@ == edges_around(table@, 0, v),
        decreases count - r@.len(),
    {
        let empty: Vec<usize> = Vec::new();
        r.push(empty);
    }
    let mut e: usize = 0;
    while e < table.len()
        invariant
            e <= table@.len(),
            forall|i: int|
                0 <= i < table@.len() ==> (#[trigger] table@[i]).low < count && table@[i].high
                    < count,
            r@.len() == count,
            forall|v: usize|
                v < count ==> (#[trigger] r@[v as int])@ == edges_around(table@, e as nat, v),
            forall|v: int, i: int|
                #![trigger r@[v]@[i]]
                0 <= v < count && 0 <= i < r@[v]@.len() ==> r@[v]@[i] < table@.len(),
        decreases table@.len() - e,
    {
        let low = table[e].low;
        let high = table[e].high;
        assert(table@[e as int].low < count && table@[e as int].high < count);
        let ghost was = r@;
        r[low].push(e);
        let ghost mid = r@;
        r[high].push(e);
        e += 1;
        assert forall|v: usize| v < count implies (#[trigger] r@[v as int])@ == edges_around(
            table@,
            e as nat,
            v,
        ) by {
            assert(was[v as int]@ == edges_around(table@, (e - 1) as nat, v));
            if v != low {
                assert(mid[v as int] == was[v as int]);
            }
            if v != high {
                assert(r@[v as int] == mid[v as int]);
            }
        }
        assert forall|v: int, i: int|
            #![trigger r@[v]@[i]]
            0 <= v < count && 0 <= i < r@[v]@.len() implies r@[v]@[i] < table@.len() by {
            if i < was[v]@.len() {
                assert(r@[v]@[i] == was[v]@[i]);
            }
        }
    }
    r
}

/// Which of the edges lie on a rim.
fn find_rim(table: &Vec<EdgeFaces>, edges: &Vec<usize>) -> (r: Vec<usize>)
    requires
        forall|i: int| 0 <= i < edges@.len() ==> (#[trigger] edges@[i]) < table@.len(),
    ensures
        r@ == rim_edges(table@, edges@),
        forall|i: int| 0 <= i < r@.len() ==> (#[trigger] r@[i]) < table@.len(),
{
    let mut r: Vec<usize> = Vec::new();
    let mut i: usize = 0;
    while i < edges.len()
        invariant
            i <= edges@.len(),
            forall|i: int| 0 <= i < edges@.len() ==> (#[trigger] edges@[i]) < table@.len(),
            r@ == rim_edges(table@, edges@.take(i as int)),
            forall|i: int| 0 <= i < r@.len() ==> (#[trigger] r@[i]) < table@.len(),
        decreases edges@.len() - i,
    {
        let e = edges[i];
        assert(edges@[i as int] < table@.len());
        if table[e].faces.len() != 2 {
            r.push(e);
        }
        i += 1;
        assert(edges@.take(i as int).drop_last() =~= edges@.take(i - 1));
        assert(edges@.take(i as int).last() == e);
    }
    assert(edges@.take(i as int) =~= edges@);
    r
}

fn other_end(e: &EdgeFaces, v: usize) -> (r: usize)
    ensures
        r == far_end(*e, v),
{
    if e.low == v {
        e.high
    } else {
        e.low
    }
}

/// How each vertex below `count` moves.
pub fn vertex_rules(faces: &Vec<Vec<usize>>, table: &Vec<EdgeFaces>, count: usize) -> (r: Vec<
    VertexRule,
>)
    requires
        vertices_below(faces_view(faces@), count as nat),
        forall|i: int|
            0 <= i < table@.len() ==> (#[trigger] table@[i]).low < count && table@[i].high < count,
    ensures
        r@.len() == count,
        forall|v: usize|
            v < count ==> (#[trigger] r@[v as int])@ == rule_of(faces_view(faces@), table@, v),
{
    let around = gather_faces(faces, count);
    let edges = gather_edges(table, count);
    let mut around = around;
    let mut edges = edges;
    let ghost fv = faces_view(faces@);
    let mut r: Vec<VertexRule> = Vec::new();
    let mut v: usize = 0;
    while v < count
        invariant
            v <= count,
            r@.len() == v,
            around@.len() == count,
            edges@.len() == count,
            fv == faces_view(faces@),
            fv.len() == faces@.len(),
            forall|w: usize|
                v <= w < count ==> (#[trigger] around@[w as int])@ == faces_around(
                    fv,
                    fv.len(),
                    w,
                ),
            forall|w: usize|
                v <= w < count ==> (#[trigger] edges@[w as int])@ == edges_around(
                    table@,
                    table@.len(),
                    w,
                ),
            forall|w: int, i: int|
                #![trigger edges@[w]@[i]]
                v <= w < count && 0 <= i < edges@[w]@.len() ==> edges@[w]@[i] < table@.len(),
            forall|w: usize| w < v ==> (#[trigger] r@[w as int])@ == rule_of(fv, table@, w),
        decreases count - v,
    {
        assert(around@[v as int]@ == faces_around(fv, fv.len(), v));
        assert(edges@[v as int]@ == edges_around(table@, table@.len(), v));
        let ghost was_edges = edges@;
        let ghost was_around = around@;
        let mut my_edges: Vec<usize> = Vec::new();
        std::mem::swap(&mut edges[v], &mut my_edges);
        let mut my_faces: Vec<usize> = Vec::new();
        std::mem::swap(&mut around[v], &mut my_faces);
        assert forall|i: int| 0 <= i < my_edges@.len() implies (#[trigger] my_edges@[i])
            < table@.len() by {
            assert(was_edges[v as int]@[i] < table@.len());
        }
        assert forall|w: int, i: int|
            #![trigger edges@[w]@[i]]
            v + 1 <= w < count && 0 <= i < edges@[w]@.len() implies edges@[w]@[i]
            < table@.len() by {
            assert(edges@[w] == was_edges[w]);
            assert(was_edges[w]@[i] < table@.len());
        }
        let rim = find_rim(table, &my_edges);
        let rule = if rim.len() == 2 {
            assert(rim@[0] < table@.len() && rim@[1] < table@.len());
            VertexRule::Rim { one: other_end(&table[rim[0]], v), two: other_end(&table[rim[1]], v) }
        } else if rim.len() > 0 || my_faces.len() == 0 {
            VertexRule::Pinned
        } else {
            VertexRule::Inner { faces: my_faces, edges: my_edges }
        };
        r.push(rule);
        v += 1;
    }
    r
}

/// The number of corners of the first `n` faces.
pub open spec fn corner_count(faces: Seq<Seq<usize>>, n: nat) -> nat
    decreases n,
{
    if n == 0 {
        0
    } else {
        corner_count(faces, (n - 1) as nat) + faces[n - 1].len()
    }
}

/// The place before `i` of a closed loop of `len`.
pub open spec fn place_before(i: int, len: int) -> int {
    if i == 0 {
        len - 1
    } else {
        i - 1
    }
}

/// `six` are the two triangles of the quad at corner `i` of face `f`: the
/// corner, the point on the next side, the face point, the point on the
/// previous side. Vertices come first, then `faces.len()` face points, then
/// the edge points.
pub open spec fn is_corner_quad(
    faces: Seq<Seq<usize>>,
    table: Seq<EdgeFaces>,
    count: nat,
    f: int,
    i: int,
    six: Seq<u32>,
) -> bool {
    let base = count + faces.len();
    let next = six[1] - base;
    let prev = six[5] - base;
    &&& six.len() == 6
    &&& six[0] == faces[f][i]
    &&& six[3] == faces[f][i]
    &&& six[2] == count + f
    &&& six[4] == count + f
    &&& 0 <= next < table.len()
    &&& table[next].key() == side_key(faces[f], i)
    &&& 0 <= prev < table.len()
    &&& table[prev].key() == side_key(faces[f], place_before(i, faces[f].len() as int))
}

/// The quad at corner `i` of face `f` stands in its place among `indices`.
pub open spec fn quad_stands(
    faces: Seq<Seq<usize>>,
    table: Seq<EdgeFaces>,
    count: nat,
    indices: Seq<u32>,
    f: int,
    i: int,
) -> bool {
    let at = 6 * (corner_count(faces, f as nat) + i);
    at + 6 <= indices.len() && is_corner_quad(
        faces,
        table,
        count,
        f,
        i,
        indices.subrange(at, at + 6),
    )
}

/// The quads of the first `n` faces, corner by corner.
pub open spec fn are_corner_quads(
    faces: Seq<Seq<usize>>,
    table: Seq<EdgeFaces>,
    count: nat,
    n: nat,
    indices: Seq<u32>,
) -> bool {
    &&& indices.len() == 6 * corner_count(faces, n)
    &&& forall|f: int, i: int|
        0 <= f < n && 0 <= i < faces[f].len() ==> #[trigger] quad_stands(
            faces,
            table,
            count,
            indices,
            f,
            i,
        )
}

/// The place of an edge in the table.
fn find_edge(table: &Vec<EdgeFaces>, key: (usize, usize)) -> (k: usize)
    requires
        ascending(table@),
        lists(table@, key),
    ensures
        k < table@.len(),
        table@[k as int].key() == key,
{
    let ghost at = choose|i: int| 0 <= i < table@.len() && (#[trigger] table@[i]).key() == key;
    let mut low: usize = 0;
    let mut high: usize = table.len();
    while low + 1 < high
        invariant
            ascending(table@),
            high <= table@.len(),
            low <= at < high,
            table@[at].key() == key,
        decreases high - low,
    {
        let mid = low + (high - low) / 2;
        let m = &table[mid];
        if m.low < key.0 || (m.low == key.0 && m.high <= key.1) {
            proof {
                if at < mid {
                    assert(key_less(table@[at].key(), table@[mid as int].key()));
                }
            }
            low = mid;
        } else {
            proof {
                if at >= mid {
                    if at > mid {
                        assert(key_less(table@[mid as int].key(), table@[at].key()));
                    }
                }
            }
            high = mid;
        }
    }
    low
}

/// A point of the refined mesh: an old vertex, moved by its rule; the
/// middle of a face; or a point on an edge.
#[derive(Clone, Copy, PartialEq, Eq, Structural, Debug)]
pub enum RefinedPoint {
    Vertex(usize),
    Face(usize),
    Edge(usize),
}

/// All points: vertices, faces, edges.
pub open spec fn refined_points(count: nat, faces: nat, edges: nat) -> Seq<RefinedPoint> {
    Seq::new(count, |i: int| RefinedPoint::Vertex(i as usize)) + Seq::new(
        faces,
        |i: int| RefinedPoint::Face(i as usize),
    ) + Seq::new(edges, |i: int| RefinedPoint::Edge(i as usize))
}

fn make_points(count: usize, faces: usize, edges: usize) -> (r: Vec<RefinedPoint>)
    ensures
        r@ == refined_points(count as nat, faces as nat, edges as nat),
{
    let mut r: Vec<RefinedPoint> = Vec::new();
    let mut i: usize = 0;
    while i < count
        invariant
            i <= count,
            r@ == Seq::new(i as nat, |i: int| RefinedPoint::Vertex(i as usize)),
        decreases count - i,
    {
        r.push(RefinedPoint::Vertex(i));
        i += 1;
        assert(r@ =~= Seq::new(i as nat, |i: int| RefinedPoint::Vertex(i as usize)));
    }
    let ghost one = r@;
    let mut i: usize = 0;
    assert(one =~= one + Seq::new(0, |i: int| RefinedPoint::Face(i as usize)));
    while i < faces
        invariant
            i <= faces,
            r@ == one + Seq::new(i as nat, |i: int| RefinedPoint::Face(i as usize)),
        decreases faces - i,
    {
        r.push(RefinedPoint::Face(i));
        i += 1;
        assert(r@ =~= one + Seq::new(i as nat, |i: int| RefinedPoint::Face(i as usize)));
    }
    let ghost two = r@;
    let mut i: usize = 0;
    assert(two =~= two + Seq::new(0, |i: int| RefinedPoint::Edge(i as usize)));
    while i < edges
        invariant
            i <= edges,
            r@ == two + Seq::new(i as nat, |i: int| RefinedPoint::Edge(i as usize)),
        decreases edges - i,
    {
        r.push(RefinedPoint::Edge(i));
        i += 1;
        assert(r@ =~= two + Seq::new(i as nat, |i: int| RefinedPoint::Edge(i as usize)));
    }
    r
}

/// The corners of the quad at corner `i` of face `f`.
fn quad_at(
    faces: &Vec<Vec<usize>>,
    table: &Vec<EdgeFaces>,
    count: usize,
    f: usize,
    i: usize,
) -> (q: (u32, u32, u32, u32))
    requires
        vertices_below(faces_view(faces@), count as nat),
        is_edge_table(faces_view(faces@), table@),
        count + faces@.len() + table@.len() < u32::MAX,
        f < faces@.len(),
        i < faces@[f as int]@.len(),
    ensures
        is_corner_quad(
            faces_view(faces@),
            table@,
            count as nat,
            f as int,
            i as int,
            seq![q.0, q.1, q.2, q.0, q.2, q.3],
        ),
        q.0 < count,
        q.1 < count + faces@.len() + table@.len(),
        q.2 < count + faces@.len(),
        q.3 < count + faces@.len() + table@.len(),
{
    let ghost fv = faces_view(faces@);
    let face = &faces[f];
    assert(fv[f as int] == face@);
    let base: usize = count + faces.len();
    let next: usize = if i == face.len() - 1 {
        0
    } else {
        i + 1
    };
    let prev: usize = if i == 0 {
        face.len() - 1
    } else {
        i - 1
    };
    let key_next = ekey(face[i], face[next]);
    let key_prev = ekey(face[prev], face[i]);
    proof {
        assert(fv[f as int][i as int] < count);
        assert(fv[f as int][prev as int] < count);
        assert(key_next == side_key(fv[f as int], i as int));
        assert(key_prev == side_key(fv[f as int], prev as int));
        assert(lists(table@, key_next));
        assert(lists(table@, key_prev));
    }
    let v: u32 = face[i] as u32;
    let e_next: u32 = (base + find_edge(table, key_next)) as u32;
    let e_prev: u32 = (base + find_edge(table, key_prev)) as u32;
    (v, e_next, (count + f) as u32, e_prev)
}

/// The corner quads of all faces.
fn make_quads(faces: &Vec<Vec<usize>>, table: &Vec<EdgeFaces>, count: usize) -> (out: Vec<u32>)
    requires
        vertices_below(faces_view(faces@), count as nat),
        is_edge_table(faces_view(faces@), table@),
        count + faces@.len() + table@.len() < u32::MAX,
    ensures
        are_corner_quads(faces_view(faces@), table@, count as nat, faces@.len(), out@),
        forall|k: int|
            0 <= k < out@.len() ==> (#[trigger] out@[k]) < count + faces@.len() + table@.len(),
{
    let ghost fv = faces_view(faces@);
    let base: usize = count + faces.len();
    let mut out: Vec<u32> = Vec::new();
    let mut f: usize = 0;
    while f < faces.len()
        invariant
            f <= faces@.len(),
            fv == faces_view(faces@),
            fv.len() == faces@.len(),
            base == count + faces@.len(),
            base + table@.len() < u32::MAX,
            vertices_below(fv, count as nat),
            is_edge_table(fv, table@),
            are_corner_quads(fv, table@, count as nat, f as nat, out@),
            forall|k: int| 0 <= k < out@.len() ==> (#[trigger] out@[k]) < base + table@.len(),
        decreases faces@.len() - f,
    {
        let face = &faces[f];
        assert(fv[f as int] == face@);
        let ghost start = out@;
        let mut i: usize = 0;
        while i < face.len()
            invariant
                f < faces@.len(),
                i <= face@.len(),
                fv == faces_view(faces@),
                fv.len() == faces@.len(),
                fv[f as int] == face@,
                base == count + faces@.len(),
                base + table@.len() < u32::MAX,
                vertices_below(fv, count as nat),
                is_edge_table(fv, table@),
                are_corner_quads(fv, table@, count as nat, f as nat, start),
                out@.len() == 6 * (corner_count(fv, f as nat) + i),
                start.is_prefix_of(out@),
                forall|k: int|
                    0 <= k < i ==> #[trigger] quad_stands(
                        fv,
                        table@,
                        count as nat,
                        out@,
                        f as int,
                        k,
                    ),
                forall|k: int| 0 <= k < out@.len() ==> (#[trigger] out@[k]) < base + table@.len(),
            decreases face@.len() - i,
        {
            let (v, e_next, middle, e_prev) = quad_at(faces, table, count, f, i);
            let ghost was = out@;
            out.push(v);
            out.push(e_next);
            out.push(middle);
            out.push(v);
            out.push(middle);
            out.push(e_prev);
            proof {
                let six = seq![v, e_next, middle, v, middle, e_prev];
                assert(out@ =~= was + six);
                assert(out@.subrange(was.len() as int, was.len() as int + 6) =~= six);
                assert forall|k: int| 0 <= k < i + 1 implies #[trigger] quad_stands(
                    fv,
                    table@,
                    count as nat,
                    out@,
                    f as int,
                    k,
                ) by {
                    let at = 6 * (corner_count(fv, f as nat) + k);
                    if k < i {
                        assert(quad_stands(fv, table@, count as nat, was, f as int, k));
                        assert(out@.subrange(at, at + 6) =~= was.subrange(at, at + 6));
                    }
                }
            }
            i += 1;
        }
        proof {
            assert forall|g: int, k: int| 0 <= g < f + 1 && 0 <= k < fv[g].len() implies
                #[trigger] quad_stands(fv, table@, count as nat, out@, g, k) by {
                let at = 6 * (corner_count(fv, g as nat) + k);
                if g < f {
                    assert(quad_stands(fv, table@, count as nat, start, g, k));
                    assert(start.subrange(at, at + 6) =~= out@.subrange(at, at + 6));
                }
            }
        }
        f += 1;
    }
    out
}

/// One round of refinement: the polygons and edges of the cage, how each old
/// vertex moves, and the refined mesh over the points.
#[derive(Debug)]
pub struct Refined {
    pub faces: Vec<Vec<usize>>,
    pub edges: Vec<EdgeFaces>,
    pub rules: Vec<VertexRule>,
    pub mesh: MeshData<RefinedPoint>,
}

/// The topology's numbers are in range.
pub open spec fn numbered(topo: Topology) -> bool {
    &&& forall|t: int|
        0 <= t < topo.tris@.len() ==> (#[trigger] topo.tris@[t])[0] < topo.vert_count
            && topo.tris@[t][1] < topo.vert_count && topo.tris@[t][2] < topo.vert_count
    &&& forall|f: int, i: int|
        0 <= f < topo.faces@.len() && 0 <= i < topo.faces@[f].tris@.len()
            ==> #[trigger] topo.faces@[f].tris@[i] < topo.tris@.len()
    &&& forall|f: int, i: int|
        0 <= f < topo.faces@.len() && 0 <= i < topo.faces@[f].outline@.len() ==> (
        #[trigger] topo.faces@[f].outline@[i]).0 < topo.vert_count && topo.faces@[f].outline@[i].1
            < topo.vert_count
}

proof fn lemma_loop_below(topo: Topology, f: int, turned: bool)
    requires
        numbered(topo),
        0 <= f < topo.faces@.len(),
        face_loop_of(topo, f, turned) is Some,
    ensures
        forall|k: int|
            0 <= k < (face_loop_of(topo, f, turned)->0).len() ==> (#[trigger] (face_loop_of(
                topo,
                f,
                turned,
            )->0)[k]) < topo.vert_count,
{
    let outline = topo.faces@[f].outline@;
    let l = loop_of(outline)->0;
    let m = face_loop_of(topo, f, turned)->0;
    law_loop_is_simple_and_closed(outline);
    assert forall|k: int| 0 <= k < m.len() implies (#[trigger] m[k]) < topo.vert_count by {
        let i = if turned { l.len() - 1 - k } else { k };
        let w = l[i];
        let other = if i < l.len() - 1 { l[i + 1] } else { l[0] };
        assert(joined(outline, w, other));
        let e = choose|e: int| 0 <= e < outline.len() && (#[trigger] outline[e] == (w, other)
            || outline[e] == (other, w));
        assert(topo.faces@[f].outline@[e] == outline[e]);
    }
}

/// The polygons that are refined.
fn make_faces(topo: &Topology, turned: &Vec<bool>) -> (r: Vec<Vec<usize>>)
    requires
        numbered(*topo),
        turned@.len() == topo.faces@.len(),
    ensures
        faces_view(r@) == cage_faces(*topo, turned@, topo.faces@.len()),
        vertices_below(faces_view(r@), topo.vert_count as nat),
{
    let mut r: Vec<Vec<usize>> = Vec::new();
    let mut f: usize = 0;
    assert(faces_view(r@) =~= seq![]);
    while f < topo.faces.len()
        invariant
            f <= topo.faces@.len(),
            numbered(*topo),
            turned@.len() == topo.faces@.len(),
            faces_view(r@) == cage_faces(*topo, turned@, f as nat),
            vertices_below(faces_view(r@), topo.vert_count as nat),
        decreases topo.faces@.len() - f,
    {
        let ghost was = faces_view(r@);
        match face_loop(topo, f, turned[f]) {
            Some(l) => {
                proof {
                    lemma_loop_below(*topo, f as int, turned@[f as int]);
                }
                r.push(l);
                assert(faces_view(r@) =~= was.push(l@));
                assert forall|g: int, i: int|
                    0 <= g < faces_view(r@).len() && 0 <= i < faces_view(r@)[g].len() implies
                    #[trigger] faces_view(r@)[g][i] < topo.vert_count by {
                    if g < was.len() {
                        assert(was[g][i] < topo.vert_count);
                    } else {
                        assert(l@[i] < topo.vert_count);
                    }
                }
            },
            None => {
                let tris = &topo.faces[f].tris;
                let mut n: usize = 0;
                assert(was + raw_triangles(*topo, f as int, 0) =~= was);
                while n < tris.len()
                    invariant
                        n <= tris@.len(),
                        f < topo.faces@.len(),
                        *tris == topo.faces@[f as int].tris,
                        numbered(*topo),
                        faces_view(r@) == was + raw_triangles(*topo, f as int, n as nat),
                        vertices_below(faces_view(r@), topo.vert_count as nat),
                    decreases tris@.len() - n,
                {
                    assert(topo.faces@[f as int].tris@[n as int] < topo.tris@.len());
                    let t = topo.tris[tris[n]];
                    assert(topo.tris@[tris@[n as int] as int][0] < topo.vert_count);
                    let one = vec![t[0], t[1], t[2]];
                    assert(one@ =~= seq![t[0], t[1], t[2]]);
                    let ghost before = faces_view(r@);
                    r.push(one);
                    n += 1;
                    assert(faces_view(r@) =~= before.push(one@));
                    assert(faces_view(r@) =~= was + raw_triangles(*topo, f as int, n as nat));
                    assert forall|g: int, i: int|
                        0 <= g < faces_view(r@).len() && 0 <= i < faces_view(r@)[g].len() implies
                        #[trigger] faces_view(r@)[g][i] < topo.vert_count by {
                        if g < before.len() {
                            assert(before[g][i] < topo.vert_count);
                        } else {
                            assert(faces_view(r@)[g] == one@);
                        }
                    }
                }
            },
        }
        f += 1;
    }
    r
}

/// Edges of the table end at vertices of the faces.
proof fn lemma_table_below(faces: Seq<Seq<usize>>, table: Seq<EdgeFaces>, count: nat)
    requires
        vertices_below(faces, count),
        is_edge_table(faces, table),
    ensures
        forall|i: int|
            0 <= i < table.len() ==> (#[trigger] table[i]).low < count && table[i].high < count,
{
    assert forall|i: int| 0 <= i < table.len() implies (#[trigger] table[i]).low < count
        && table[i].high < count by {
        lemma_faces_at_below(faces, faces.len(), table[i].key(), count);
    }
}

proof fn lemma_faces_at_below(
    faces: Seq<Seq<usize>>,
    upto: nat,
    key: (usize, usize),
    count: nat,
)
    requires
        upto <= faces.len(),
        vertices_below(faces, count),
        faces_at(faces, upto, key).len() > 0,
    ensures
        key.0 < count,
        key.1 < count,
    decreases upto,
{
    let f = upto - 1;
    if faces_at(faces, (upto - 1) as nat, key).len() > 0 {
        lemma_faces_at_below(faces, (upto - 1) as nat, key, count);
    } else {
        lemma_sides_below(faces, f, faces[f].len(), key, count);
    }
}

proof fn lemma_sides_below(
    faces: Seq<Seq<usize>>,
    f: int,
    n: nat,
    key: (usize, usize),
    count: nat,
)
    requires
        0 <= f < faces.len(),
        n <= faces[f].len(),
        vertices_below(faces, count),
        sides_with(faces[f], f as usize, n, key).len() > 0,
    ensures
        key.0 < count,
        key.1 < count,
    decreases n,
{
    if sides_with(faces[f], f as usize, (n - 1) as nat, key).len() > 0 {
        lemma_sides_below(faces, f, (n - 1) as nat, key, count);
    } else {
        let i = n - 1;
        let j = if i == faces[f].len() - 1 { 0 } else { i + 1 };
        assert(faces[f][i] < count && faces[f][j] < count);
    }
}

/// One round of Catmull-Clark refinement. `turned` says of each face whether
/// its loop in outline order turns against the face normal. `None` when the
/// refined mesh has more points than 32-bit indices can name.
pub fn refine(topo: &Topology, turned: &Vec<bool>) -> (r: Option<Refined>)
    requires
        numbered(*topo),
        turned@.len() == topo.faces@.len(),
    ensures
        r matches Some(p) ==> {
            let faces = cage_faces(*topo, turned@, topo.faces@.len());
            &&& faces_view(p.faces@) == faces
            &&& is_edge_table(faces, p.edges@)
            &&& p.rules@.len() == topo.vert_count
            &&& forall|v: usize|
                v < topo.vert_count ==> (#[trigger] p.rules@[v as int])@ == rule_of(
                    faces,
                    p.edges@,
                    v,
                )
            &&& exists|full: MeshData<RefinedPoint>| {
                &&& full.positions@ == refined_points(
                    topo.vert_count as nat,
                    faces.len(),
                    p.edges@.len(),
                )
                &&& #[trigger] are_corner_quads(
                    faces,
                    p.edges@,
                    topo.vert_count as nat,
                    faces.len(),
                    full.indices@,
                )
                &&& full.seams@.len() == 0
                &&& is_compacted(full, p.mesh)
            }
        },
        r is None ==> exists|table: Seq<EdgeFaces>|
            #[trigger] is_edge_table(cage_faces(*topo, turned@, topo.faces@.len()), table)
                && topo.vert_count + cage_faces(*topo, turned@, topo.faces@.len()).len()
                + table.len() >= u32::MAX,
{
    let faces = make_faces(topo, turned);
    let count: usize = topo.vert_count;
    let edges = edge_table(&faces, count);
    let ghost fv = faces_view(faces@);
    let limit: usize = u32::MAX as usize;
    if count >= limit || faces.len() >= limit - count || edges.len() >= limit - count
        - faces.len() {
        assert(is_edge_table(fv, edges@));
        return None;
    }
    proof {
        lemma_table_below(fv, edges@, count as nat);
    }
    let rules = vertex_rules(&faces, &edges, count);
    let positions = make_points(count, faces.len(), edges.len());
    let indices = make_quads(&faces, &edges, count);
    let mut mesh = MeshData { positions, indices, seams: Vec::new() };
    let ghost full = mesh;
    assert(mesh.wf());
    compact(&mut mesh);
    assert(are_corner_quads(fv, edges@, count as nat, fv.len(), full.indices@));
    Some(Refined { faces, edges, rules, mesh })
}

/// The place after `i` of a closed loop of `len`.
pub open spec fn place_after(i: int, len: int) -> int {
    if i + 1 < len {
        i + 1
    } else {
        0
    }
}

/// Side `s.1` of face `s.0` runs between the two ends of the edge, one way or
/// the other.
pub open spec fn has_side(faces: Seq<Seq<usize>>, low: usize, high: usize, s: (int, int)) -> bool {
    &&& 0 <= s.0 < faces.len()
    &&& 0 <= s.1 < faces[s.0].len()
    &&& {
        let from = faces[s.0][s.1];
        let to = faces[s.0][place_after(s.1, faces[s.0].len() as int)];
        (from == low && to == high) || (from == high && to == low)
    }
}

/// Corner `c.1` of face `c.0` is the vertex `v`.
pub open spec fn has_corner(faces: Seq<Seq<usize>>, v: usize, c: (int, int)) -> bool {
    0 <= c.0 < faces.len() && 0 <= c.1 < faces[c.0].len() && faces[c.0][c.1] == v
}

/// The edge ends at the vertex.
pub open spec fn ends_at(e: EdgeFaces, v: usize) -> bool {
    e.low == v || e.high == v
}

spec fn sides_named(face: Seq<usize>, f: int, n: nat, key: (usize, usize)) -> Seq<(int, int)>
    decreases n,
{
    if n == 0 {
        seq![]
    } else {
        let before = sides_named(face, f, (n - 1) as nat, key);
        if side_key(face, n - 1) == key {
            before.push((f, n - 1))
        } else {
            before
        }
    }
}

spec fn all_sides_named(faces: Seq<Seq<usize>>, upto: nat, key: (usize, usize)) -> Seq<(int, int)>
    decreases upto,
{
    if upto == 0 {
        seq![]
    } else {
        let f = upto - 1;
        all_sides_named(faces, (upto - 1) as nat, key) + sides_named(
            faces[f],
            f,
            faces[f].len(),
            key,
        )
    }
}

proof fn lemma_sides_named(face: Seq<usize>, f: int, n: nat, key: (usize, usize))
    requires
        0 <= f <= usize::MAX,
    ensures
        ({
            let named = sides_named(face, f, n, key);
            let list = sides_with(face, f as usize, n, key);
            &&& named.no_duplicates()
            &&& named.len() == list.len()
            &&& forall|k: int| 0 <= k < list.len() ==> #[trigger] list[k] == named[k].0
            &&& forall|s: (int, int)| #[trigger]
                named.contains(s) <==> s.0 == f && 0 <= s.1 < n && side_key(face, s.1) == key
        }),
    decreases n,
{
    if n > 0 {
        lemma_sides_named(face, f, (n - 1) as nat, key);
        let before = sides_named(face, f, (n - 1) as nat, key);
        let now = sides_named(face, f, n, key);
        let list = sides_with(face, f as usize, n, key);
        if side_key(face, n - 1) == key {
            let last = (f, n - 1);
            assert(!before.contains(last));
            assert forall|s: (int, int)| #[trigger] now.contains(s) <==> s.0 == f && 0 <= s.1 < n
                && side_key(face, s.1) == key by {
                assert(before.contains(s) <==> s.0 == f && 0 <= s.1 < n - 1 && side_key(face, s.1)
                    == key);
                if before.contains(s) {
                    let k = choose|k: int| 0 <= k < before.len() && before[k] == s;
                    assert(now[k] == s);
                }
                if now.contains(s) {
                    let k = choose|k: int| 0 <= k < now.len() && now[k] == s;
                    if k < before.len() {
                        assert(before[k] == s);
                    }
                }
                assert(now[before.len() as int] == last);
            }
            assert(now.no_duplicates());
        }
    }
}

proof fn lemma_all_sides_named(faces: Seq<Seq<usize>>, upto: nat, key: (usize, usize))
    requires
        upto <= faces.len() <= usize::MAX,
    ensures
        ({
            let named = all_sides_named(faces, upto, key);
            let list = faces_at(faces, upto, key);
            &&& named.no_duplicates()
            &&& named.len() == list.len()
            &&& forall|k: int| 0 <= k < list.len() ==> #[trigger] list[k] == named[k].0
            &&& forall|s: (int, int)| #[trigger]
                named.contains(s) <==> 0 <= s.0 < upto && 0 <= s.1 < faces[s.0].len() && side_key(
                    faces[s.0],
                    s.1,
                ) == key
        }),
    decreases upto,
{
    if upto > 0 {
        let f = upto - 1;
        lemma_all_sides_named(faces, (upto - 1) as nat, key);
        lemma_sides_named(faces[f], f, faces[f].len(), key);
        let a = all_sides_named(faces, (upto - 1) as nat, key);
        let b = sides_named(faces[f], f, faces[f].len(), key);
        lemma_joined_lists(a, b);
    }
}

/// Two lists without repeats that have nothing in common make one.
proof fn lemma_joined_lists(a: Seq<(int, int)>, b: Seq<(int, int)>)
    requires
        a.no_duplicates(),
        b.no_duplicates(),
        forall|s: (int, int)| !(#[trigger] a.contains(s) && b.contains(s)),
    ensures
        (a + b).no_duplicates(),
        forall|s: (int, int)| #[trigger]
            (a + b).contains(s) <==> a.contains(s) || b.contains(s),
{
    let c = a + b;
    assert forall|s: (int, int)| #[trigger] c.contains(s) <==> a.contains(s) || b.contains(s) by {
        if a.contains(s) {
            let k = choose|k: int| 0 <= k < a.len() && a[k] == s;
            assert(c[k] == s);
        }
        if b.contains(s) {
            let k = choose|k: int| 0 <= k < b.len() && b[k] == s;
            assert(c[a.len() + k] == s);
        }
        if c.contains(s) {
            let k = choose|k: int| 0 <= k < c.len() && c[k] == s;
            if k < a.len() {
                assert(a[k] == s);
            } else {
                assert(b[k - a.len()] == s);
            }
        }
    }
    assert forall|i: int, j: int| 0 <= i < c.len() && 0 <= j < c.len() && i != j implies c[i]
        != c[j] by {
        if i < a.len() && j >= a.len() {
            assert(a[i] == c[i]);
            assert(b[j - a.len()] == c[j]);
            assert(a.contains(c[i]));
        }
        if j < a.len() && i >= a.len() {
            assert(a[j] == c[j]);
            assert(b[i - a.len()] == c[i]);
            assert(a.contains(c[j]));
        }
    }
}

/// An edge of the table names the faces that it bounds: the face of each side
/// that runs along it, in either direction, once for each such side.
pub proof fn law_edges_name_their_faces(
    faces: Seq<Seq<usize>>,
    table: Seq<EdgeFaces>,
    e: int,
) -> (sides: Seq<(int, int)>)
    requires
        is_edge_table(faces, table),
        faces.len() <= usize::MAX,
        0 <= e < table.len(),
    ensures
        sides.no_duplicates(),
        sides.len() == table[e].faces@.len(),
        forall|k: int| 0 <= k < sides.len() ==> table[e].faces@[k] == (#[trigger] sides[k]).0,
        forall|s: (int, int)| #[trigger]
            sides.contains(s) <==> has_side(faces, table[e].low, table[e].high, s),
        table[e].low <= table[e].high,
{
    let key = table[e].key();
    lemma_all_sides_named(faces, faces.len(), key);
    let sides = all_sides_named(faces, faces.len(), key);
    assert(table[e].faces@ == faces_at(faces, faces.len(), key));
    assert(sides.contains(sides[0]));
    assert forall|s: (int, int)| #[trigger] sides.contains(s) <==> has_side(
        faces,
        table[e].low,
        table[e].high,
        s,
    ) by {}
    sides
}

/// Every side of a face lies along one edge of the table, and no two entries
/// are the same edge.
pub proof fn law_every_side_has_one_edge(
    faces: Seq<Seq<usize>>,
    table: Seq<EdgeFaces>,
    f: int,
    i: int,
) -> (e: int)
    requires
        is_edge_table(faces, table),
        0 <= f < faces.len(),
        0 <= i < faces[f].len(),
    ensures
        0 <= e < table.len(),
        has_side(faces, table[e].low, table[e].high, (f, i)),
        forall|k: int|
            0 <= k < table.len() && k != e ==> !((#[trigger] table[k]).low == table[e].low
                && table[k].high == table[e].high),
{
    let key = side_key(faces[f], i);
    assert(lists(table, key));
    let e = choose|e: int| 0 <= e < table.len() && (#[trigger] table[e]).key() == key;
    assert forall|k: int| 0 <= k < table.len() && k != e implies !((#[trigger] table[k]).low
        == table[e].low && table[k].high == table[e].high) by {
        if k < e {
            assert(key_less(table[k].key(), table[e].key()));
        } else {
            assert(key_less(table[e].key(), table[k].key()));
        }
    }
    e
}

spec fn corners_named(face: Seq<usize>, f: int, n: nat, v: usize) -> Seq<(int, int)>
    decreases n,
{
    if n == 0 {
        seq![]
    } else {
        let before = corners_named(face, f, (n - 1) as nat, v);
        if face[n - 1] == v {
            before.push((f, n - 1))
        } else {
            before
        }
    }
}

spec fn all_corners_named(faces: Seq<Seq<usize>>, upto: nat, v: usize) -> Seq<(int, int)>
    decreases upto,
{
    if upto == 0 {
        seq![]
    } else {
        let f = upto - 1;
        all_corners_named(faces, (upto - 1) as nat, v) + corners_named(
            faces[f],
            f,
            faces[f].len(),
            v,
        )
    }
}

proof fn lemma_corners_named(face: Seq<usize>, f: int, n: nat, v: usize)
    requires
        0 <= f <= usize::MAX,
    ensures
        ({
            let named = corners_named(face, f, n, v);
            let list = places_of(face, f as usize, n, v);
            &&& named.no_duplicates()
            &&& named.len() == list.len()
            &&& forall|k: int| 0 <= k < list.len() ==> #[trigger] list[k] == named[k].0
            &&& forall|s: (int, int)| #[trigger]
                named.contains(s) <==> s.0 == f && 0 <= s.1 < n && face[s.1] == v
        }),
    decreases n,
{
    if n > 0 {
        lemma_corners_named(face, f, (n - 1) as nat, v);
        let before = corners_named(face, f, (n - 1) as nat, v);
        let now = corners_named(face, f, n, v);
        if face[n - 1] == v {
            let last = (f, n - 1);
            assert(!before.contains(last));
            assert forall|s: (int, int)| #[trigger] now.contains(s) <==> s.0 == f && 0 <= s.1 < n
                && face[s.1] == v by {
                assert(before.contains(s) <==> s.0 == f && 0 <= s.1 < n - 1 && face[s.1] == v);
                if before.contains(s) {
                    let k = choose|k: int| 0 <= k < before.len() && before[k] == s;
                    assert(now[k] == s);
                }
                if now.contains(s) {
                    let k = choose|k: int| 0 <= k < now.len() && now[k] == s;
                    if k < before.len() {
                        assert(before[k] == s);
                    }
                }
                assert(now[before.len() as int] == last);
            }
            assert(now.no_duplicates());
        }
    }
}

proof fn lemma_all_corners_named(faces: Seq<Seq<usize>>, upto: nat, v: usize)
    requires
        upto <= faces.len() <= usize::MAX,
    ensures
        ({
            let named = all_corners_named(faces, upto, v);
            let list = faces_around(faces, upto, v);
            &&& named.no_duplicates()
            &&& named.len() == list.len()
            &&& forall|k: int| 0 <= k < list.len() ==> #[trigger] list[k] == named[k].0
            &&& forall|s: (int, int)| #[trigger]
                named.contains(s) <==> s.0 < upto && has_corner(faces, v, s)
        }),
    decreases upto,
{
    if upto > 0 {
        let f = upto - 1;
        lemma_all_corners_named(faces, (upto - 1) as nat, v);
        lemma_corners_named(faces[f], f, faces[f].len(), v);
        let a = all_corners_named(faces, (upto - 1) as nat, v);
        let b = corners_named(faces[f], f, faces[f].len(), v);
        lemma_joined_lists(a, b);
    }
}

/// The edges are those of the first `n` of the table that end at `v`, in
/// order; one that leads from `v` to itself stands twice.
pub open spec fn are_edges_at(
    table: Seq<EdgeFaces>,
    n: int,
    v: usize,
    edges: Seq<usize>,
) -> bool {
    &&& forall|e: usize| #[trigger] edges.contains(e) <==> e < n && ends_at(table[e as int], v)
    &&& forall|i: int, j: int|
        0 <= i < j < edges.len() ==> #[trigger] edges[i] < #[trigger] edges[j] || (edges[i]
            == edges[j] && table[edges[i] as int].low == table[edges[i] as int].high)
}

proof fn lemma_edges_around(table: Seq<EdgeFaces>, n: nat, v: usize)
    requires
        n <= table.len() <= usize::MAX,
    ensures
        are_edges_at(table, n as int, v, edges_around(table, n, v)),
    decreases n,
{
    if n > 0 {
        lemma_edges_around(table, (n - 1) as nat, v);
        let before = edges_around(table, (n - 1) as nat, v);
        let now = edges_around(table, n, v);
        let last = (n - 1) as usize;
        assert forall|i: int| 0 <= i < before.len() implies #[trigger] before[i] < last by {
            assert(before.contains(before[i]));
        }
        assert forall|i: int| before.len() <= i < now.len() implies #[trigger] now[i] == last by {}
        assert forall|i: int| 0 <= i < before.len() implies #[trigger] now[i] == before[i] by {}
        assert forall|e: usize| #[trigger] now.contains(e) <==> e < n && ends_at(
            table[e as int],
            v,
        ) by {
            assert(before.contains(e) <==> e < n - 1 && ends_at(table[e as int], v));
            if before.contains(e) {
                let k = choose|k: int| 0 <= k < before.len() && before[k] == e;
                assert(now[k] == e);
            }
            if e == last && ends_at(table[e as int], v) {
                assert(now[before.len() as int] == last);
            }
            if now.contains(e) {
                let k = choose|k: int| 0 <= k < now.len() && now[k] == e;
                if k < before.len() {
                    assert(before[k] == e);
                }
            }
        }
        assert forall|i: int, j: int| 0 <= i < j < now.len() implies #[trigger] now[i]
            < #[trigger] now[j] || (now[i] == now[j] && table[now[i] as int].low
            == table[now[i] as int].high) by {
            if j < before.len() {
                assert(before[i] < before[j] || before[i] == before[j]);
            } else if i < before.len() {
                assert(before[i] < last);
            }
        }
    }
}

proof fn lemma_rim_edges(table: Seq<EdgeFaces>, edges: Seq<usize>)
    requires
        forall|i: int, j: int|
            0 <= i < j < edges.len() ==> #[trigger] edges[i] < #[trigger] edges[j] || (edges[i]
                == edges[j] && table[edges[i] as int].low == table[edges[i] as int].high),
    ensures
        ({
            let rim = rim_edges(table, edges);
            &&& forall|e: usize| #[trigger]
                rim.contains(e) <==> edges.contains(e) && table[e as int].faces@.len() != 2
            &&& forall|i: int, j: int|
                0 <= i < j < rim.len() ==> #[trigger] rim[i] < #[trigger] rim[j] || (rim[i]
                    == rim[j] && table[rim[i] as int].low == table[rim[i] as int].high)
        }),
    decreases edges.len(),
{
    if edges.len() > 0 {
        let rest = edges.drop_last();
        let last = edges.last();
        assert forall|i: int, j: int| 0 <= i < j < rest.len() implies #[trigger] rest[i]
            < #[trigger] rest[j] || (rest[i] == rest[j] && table[rest[i] as int].low
            == table[rest[i] as int].high) by {
            assert(edges[i] == rest[i] && edges[j] == rest[j]);
        }
        lemma_rim_edges(table, rest);
        let before = rim_edges(table, rest);
        let rim = rim_edges(table, edges);
        assert forall|e: usize| edges.contains(e) <==> rest.contains(e) || e == last by {
            if rest.contains(e) {
                let k = choose|k: int| 0 <= k < rest.len() && rest[k] == e;
                assert(edges[k] == e);
            }
            if edges.contains(e) {
                let k = choose|k: int| 0 <= k < edges.len() && edges[k] == e;
                if k < rest.len() {
                    assert(rest[k] == e);
                }
            }
            assert(edges[edges.len() - 1] == last);
        }
        assert forall|e: usize| #[trigger] rim.contains(e) <==> edges.contains(e)
            && table[e as int].faces@.len() != 2 by {
            assert(before.contains(e) <==> rest.contains(e) && table[e as int].faces@.len() != 2);
            if before.contains(e) {
                let k = choose|k: int| 0 <= k < before.len() && before[k] == e;
                assert(rim[k] == e);
            }
            if e == last && table[e as int].faces@.len() != 2 {
                assert(rim[before.len() as int] == e);
            }
            if rim.contains(e) {
                let k = choose|k: int| 0 <= k < rim.len() && rim[k] == e;
                if k < before.len() {
                    assert(before[k] == e);
                }
            }
        }
        assert forall|i: int, j: int| 0 <= i < j < rim.len() implies #[trigger] rim[i]
            < #[trigger] rim[j] || (rim[i] == rim[j] && table[rim[i] as int].low
            == table[rim[i] as int].high) by {
            assert(rim[i] == before[i]);
            assert(before.contains(before[i]));
            assert(rest.contains(before[i]));
            let k = choose|k: int| 0 <= k < rest.len() && rest[k] == before[i];
            assert(edges[k] == before[i]);
            assert(edges[edges.len() - 1] == last);
            if j < before.len() {
                assert(rim[j] == before[j]);
            } else {
                assert(rim[j] == last);
            }
        }
    }
}

/// The edge is on a rim: it does not lie between two faces.
pub open spec fn on_rim(table: Seq<EdgeFaces>, v: usize, e: int) -> bool {
    0 <= e < table.len() && ends_at(table[e], v) && table[e].faces@.len() != 2
}

/// A vertex with a face around it, all of whose edges lie between two faces,
/// moves by its surroundings, however many they are: by every face that has
/// it as a corner and by every edge that ends at it.
pub proof fn law_inner_vertices_move(
    faces: Seq<Seq<usize>>,
    table: Seq<EdgeFaces>,
    v: usize,
    corner: (int, int),
) -> (corners: Seq<(int, int)>)
    requires
        faces.len() <= usize::MAX,
        table.len() <= usize::MAX,
        has_corner(faces, v, corner),
        forall|e: int|
            0 <= e < table.len() && ends_at(#[trigger] table[e], v) ==> table[e].faces@.len() == 2,
    ensures
        corners.no_duplicates(),
        forall|c: (int, int)| #[trigger] corners.contains(c) <==> has_corner(faces, v, c),
        rule_of(faces, table, v) is Inner,
        rule_of(faces, table, v)->faces.len() == corners.len(),
        forall|k: int|
            0 <= k < corners.len() ==> rule_of(faces, table, v)->faces[k] == (
            #[trigger] corners[k]).0,
        are_edges_at(table, table.len() as int, v, rule_of(faces, table, v)->edges),
{
    lemma_all_corners_named(faces, faces.len(), v);
    let corners = all_corners_named(faces, faces.len(), v);
    let edges = edges_around(table, table.len(), v);
    lemma_edges_around(table, table.len(), v);
    lemma_rim_edges(table, edges);
    let rim = rim_edges(table, edges);
    if rim.len() > 0 {
        assert(rim.contains(rim[0]));
        assert(edges.contains(rim[0]));
        assert(ends_at(table[rim[0] as int], v));
    }
    assert(corners.contains(corner));
    corners
}

/// A vertex at exactly two rim edges moves along the rim, between the far ends
/// of the two.
pub proof fn law_rim_vertices_follow_the_rim(
    faces: Seq<Seq<usize>>,
    table: Seq<EdgeFaces>,
    v: usize,
    d: int,
    e: int,
)
    requires
        table.len() <= usize::MAX,
        d < e,
        on_rim(table, v, d),
        on_rim(table, v, e),
        forall|k: int| #[trigger] on_rim(table, v, k) ==> k == d || k == e,
        table[d].low != table[d].high,
        table[e].low != table[e].high,
    ensures
        rule_of(faces, table, v) matches RuleView::Rim { one, two } && one != v && two != v && (
        table[d].low == one || table[d].high == one) && (table[e].low == two || table[e].high
            == two),
{
    let edges = edges_around(table, table.len(), v);
    lemma_edges_around(table, table.len(), v);
    lemma_rim_edges(table, edges);
    let rim = rim_edges(table, edges);
    assert(edges.contains(d as usize) && edges.contains(e as usize));
    assert(rim.contains(d as usize) && rim.contains(e as usize));
    assert forall|i: int| 0 <= i < rim.len() implies #[trigger] rim[i] == d || rim[i] == e by {
        assert(rim.contains(rim[i]));
        assert(on_rim(table, v, rim[i] as int));
    }
    let a = choose|a: int| 0 <= a < rim.len() && rim[a] == d as usize;
    let b = choose|b: int| 0 <= b < rim.len() && rim[b] == e as usize;
    if a > b {
        assert(rim[b] < rim[a] || rim[b] == rim[a]);
    }
    if rim.len() > 2 {
        assert(rim[0] < rim[1] || rim[0] == rim[1]);
        assert(rim[1] < rim[2] || rim[1] == rim[2]);
        assert(rim[0] < rim[2] || rim[0] == rim[2]);
    }
    assert(rim.len() == 2);
    assert(a == 0 && b == 1);
}

/// A vertex without a face, at a single rim edge, or where three of them meet
/// stays where it is.
pub proof fn law_other_vertices_are_pinned(
    faces: Seq<Seq<usize>>,
    table: Seq<EdgeFaces>,
    v: usize,
    c: int,
    d: int,
    e: int,
)
    requires
        is_edge_table(faces, table),
        faces.len() <= usize::MAX,
        table.len() <= usize::MAX,
        ({
            ||| forall|k: (int, int)| !#[trigger] has_corner(faces, v, k)
            ||| on_rim(table, v, c) && table[c].low != table[c].high && forall|k: int| #[trigger]
                on_rim(table, v, k) ==> k == c
            ||| c < d < e && on_rim(table, v, c) && on_rim(table, v, d) && on_rim(table, v, e)
        }),
    ensures
        rule_of(faces, table, v) is Pinned,
{
    let edges = edges_around(table, table.len(), v);
    lemma_edges_around(table, table.len(), v);
    lemma_rim_edges(table, edges);
    lemma_all_corners_named(faces, faces.len(), v);
    let corners = all_corners_named(faces, faces.len(), v);
    let rim = rim_edges(table, edges);
    assert forall|i: int| 0 <= i < rim.len() implies on_rim(table, v, #[trigger] rim[i] as int) by {
        assert(rim.contains(rim[i]));
    }
    assert forall|k: int| #[trigger] on_rim(table, v, k) implies rim.contains(k as usize) by {
        assert(edges.contains(k as usize));
    }
    if forall|k: (int, int)| !#[trigger] has_corner(faces, v, k) {
        if rim.len() > 0 {
            let k = rim[0] as int;
            let sides = law_edges_name_their_faces(faces, table, k);
            let s = sides[0];
            assert(sides.contains(s));
            assert(has_corner(faces, v, s) || has_corner(
                faces,
                v,
                (s.0, place_after(s.1, faces[s.0].len() as int)),
            ));
        }
        if corners.len() > 0 {
            assert(corners.contains(corners[0]));
            assert(has_corner(faces, v, corners[0]));
        }
    } else if on_rim(table, v, c) && table[c].low != table[c].high && forall|k: int| #[trigger]
        on_rim(table, v, k) ==> k == c {
        assert(rim.contains(c as usize));
        if rim.len() >= 2 {
            assert(on_rim(table, v, rim[0] as int) && on_rim(table, v, rim[1] as int));
        }
    } else {
        assert(rim.contains(c as usize) && rim.contains(d as usize) && rim.contains(e as usize));
        let i = choose|i: int| 0 <= i < rim.len() && rim[i] == c as usize;
        let j = choose|j: int| 0 <= j < rim.len() && rim[j] == d as usize;
        let k = choose|k: int| 0 <= k < rim.len() && rim[k] == e as usize;
        assert(i != j && j != k && i != k);
    }
}

/// The refined mesh has a quad at every corner of every face, wound as the
/// face is: from the corner to the point on the side that leaves it, to the
/// middle of the face, to the point on the side that arrives at it.
pub proof fn law_corner_quads_are_wound_as_the_face(
    faces: Seq<Seq<usize>>,
    table: Seq<EdgeFaces>,
    count: nat,
    indices: Seq<u32>,
    points: Seq<RefinedPoint>,
    f: int,
    i: int,
)
    requires
        vertices_below(faces, count),
        count + faces.len() + table.len() < u32::MAX,
        are_corner_quads(faces, table, count, faces.len(), indices),
        points == refined_points(count, faces.len(), table.len()),
        0 <= f < faces.len(),
        0 <= i < faces[f].len(),
    ensures
        ({
            let at = 6 * (corner_count(faces, f as nat) + i);
            let len = faces[f].len() as int;
            let (here, next, prev) = (
                faces[f][i],
                faces[f][place_after(i, len)],
                faces[f][if i > 0 {
                    i - 1
                } else {
                    len - 1
                }],
            );
            &&& 0 <= at && at + 6 <= indices.len()
            &&& forall|k: int| at <= k < at + 6 ==> (#[trigger] indices[k]) < points.len()
            &&& points[indices[at] as int] == RefinedPoint::Vertex(here)
            &&& points[indices[at + 2] as int] == RefinedPoint::Face(f as usize)
            &&& points[indices[at + 1] as int] matches RefinedPoint::Edge(e) && e < table.len() && ((
            table[e as int].low == here && table[e as int].high == next) || (table[e as int].low
                == next && table[e as int].high == here))
            &&& indices[at + 3] == indices[at]
            &&& indices[at + 4] == indices[at + 2]
            &&& points[indices[at + 5] as int] matches RefinedPoint::Edge(e) && e < table.len() && ((
            table[e as int].low == here && table[e as int].high == prev) || (table[e as int].low
                == prev && table[e as int].high == here))
        }),
{
    let at = 6 * (corner_count(faces, f as nat) + i);
    assert(quad_stands(faces, table, count, indices, f, i));
    let six = indices.subrange(at, at + 6);
    assert forall|k: int| 0 <= k < 6 implies #[trigger] six[k] == indices[at + k] by {}
    assert(six[0] == indices[at] && six[1] == indices[at + 1] && six[2] == indices[at + 2]);
    assert(six[3] == indices[at + 3] && six[4] == indices[at + 4] && six[5] == indices[at + 5]);
    assert(faces[f][i] < count);
    assert forall|k: int| at <= k < at + 6 implies (#[trigger] indices[k]) < points.len() by {
        assert(six[k - at] == indices[k]);
    }
}

/// What is refined are the faces themselves: a face whose outline is one loop
/// goes in as that loop, any other as its triangles, and nothing else does.
pub proof fn law_cage_is_made_of_the_faces(topo: Topology, turned: Seq<bool>, upto: nat)
    requires
        upto <= topo.faces@.len(),
    ensures
        ({
            let cage = cage_faces(topo, turned, upto);
            &&& forall|f: int| 0 <= f < upto ==> #[trigger] is_in_cage(topo, turned, f, cage)
            &&& forall|c: int|
                0 <= c < cage.len() ==> comes_from_a_face(topo, turned, upto, #[trigger] cage[c])
        }),
    decreases upto,
{
    if upto > 0 {
        let g = upto - 1;
        law_cage_is_made_of_the_faces(topo, turned, (upto - 1) as nat);
        let before = cage_faces(topo, turned, (upto - 1) as nat);
        let cage = cage_faces(topo, turned, upto);
        lemma_raw_triangles(topo, g, topo.faces@[g].tris@.len());
        let raw = raw_triangles(topo, g, topo.faces@[g].tris@.len());
        assert(forall|k: int| 0 <= k < before.len() ==> #[trigger] cage[k] == before[k]);
        assert forall|x: Seq<usize>| before.contains(x) implies #[trigger] cage.contains(x) by {
            let k = choose|k: int| 0 <= k < before.len() && before[k] == x;
            assert(cage[k] == x);
        }
        assert forall|f: int| 0 <= f < upto implies #[trigger] is_in_cage(topo, turned, f, cage) by {
            if f == g {
                match face_loop_of(topo, g, turned[g]) {
                    Some(l) => {
                        assert(cage[before.len() as int] == l);
                    },
                    None => {
                        assert forall|k: int|
                            #![trigger topo.faces@[f].tris@[k]]
                            0 <= k < topo.faces@[f].tris@.len() implies cage.contains(
                            topo.tris@[topo.faces@[f].tris@[k] as int]@,
                        ) by {
                            assert(raw[k] == topo.tris@[topo.faces@[f].tris@[k] as int]@);
                            assert(cage[before.len() + k] == raw[k]);
                        }
                    },
                }
            } else {
                assert(is_in_cage(topo, turned, f, before));
            }
        }
        assert forall|c: int| 0 <= c < cage.len() implies comes_from_a_face(
            topo,
            turned,
            upto,
            #[trigger] cage[c],
        ) by {
            if c < before.len() {
                assert(comes_from_a_face(topo, turned, (upto - 1) as nat, before[c]));
                let f = choose|f: int|
                    0 <= f < upto - 1 && #[trigger] stands_for(topo, turned, f, before[c]);
                assert(stands_for(topo, turned, f, cage[c]));
            } else {
                if face_loop_of(topo, g, turned[g]) is None {
                    let k = c - before.len();
                    assert(cage[c] == raw[k]);
                    assert(topo.tris@[topo.faces@[g].tris@[k] as int]@ == cage[c]);
                }
                assert(stands_for(topo, turned, g, cage[c]));
            }
        }
    }
}

/// One of the first `upto` faces goes in as this polygon.
pub open spec fn comes_from_a_face(
    topo: Topology,
    turned: Seq<bool>,
    upto: nat,
    poly: Seq<usize>,
) -> bool {
    exists|f: int| 0 <= f < upto && #[trigger] stands_for(topo, turned, f, poly)
}

/// The loop of face `f` is among the polygons, or each of its triangles where
/// it has no loop.
pub open spec fn is_in_cage(
    topo: Topology,
    turned: Seq<bool>,
    f: int,
    cage: Seq<Seq<usize>>,
) -> bool {
    match face_loop_of(topo, f, turned[f]) {
        Some(l) => cage.contains(l),
        None => forall|k: int|
            #![trigger topo.faces@[f].tris@[k]]
            0 <= k < topo.faces@[f].tris@.len() ==> cage.contains(
                topo.tris@[topo.faces@[f].tris@[k] as int]@,
            ),
    }
}

/// The polygon is the loop of face `f`, or one of its triangles where it has
/// no loop.
pub open spec fn stands_for(topo: Topology, turned: Seq<bool>, f: int, poly: Seq<usize>) -> bool {
    match face_loop_of(topo, f, turned[f]) {
        Some(l) => poly == l,
        None => exists|k: int|
            #![trigger topo.faces@[f].tris@[k]]
            0 <= k < topo.faces@[f].tris@.len() && poly
                == topo.tris@[topo.faces@[f].tris@[k] as int]@,
    }
}

proof fn lemma_raw_triangles(topo: Topology, f: int, n: nat)
    requires
        n <= topo.faces@[f].tris@.len(),
    ensures
        raw_triangles(topo, f, n).len() == n,
        forall|k: int|
            0 <= k < n ==> #[trigger] raw_triangles(topo, f, n)[k]
                == topo.tris@[topo.faces@[f].tris@[k] as int]@,
    decreases n,
{
    if n > 0 {
        lemma_raw_triangles(topo, f, (n - 1) as nat);
        let t = topo.tris@[topo.faces@[f].tris@[n - 1] as int];
        assert(seq![t[0], t[1], t[2]] =~= t@);
    }
}

} // verus!
