//! Indexed triangle meshes whose vertices are of any kind: stored points,
//! or descriptions of points that are still to be computed.

use vstd::prelude::*;
#[allow(unused_imports)]
use crate::seqs::lemma_distinct_vertices;

verus! {

/// An indexed triangle mesh. Three consecutive `indices` make a triangle;
/// `seams` are vertex pairs across which faces stay separate.
#[derive(Debug)]
pub struct MeshData<P> {
    pub positions: Vec<P>,
    pub indices: Vec<u32>,
    pub seams: Vec<(u32, u32)>,
}

impl<P> MeshData<P> {
    /// Every index and seam names a vertex, and vertices can be numbered
    /// below the largest 32-bit number.
    pub open spec fn wf(&self) -> bool {
        &&& self.positions@.len() < u32::MAX
        &&& forall|i: int|
            0 <= i < self.indices@.len() ==> (#[trigger] self.indices@[i]) < self.positions@.len()
        &&& forall|i: int|
            0 <= i < self.seams@.len() ==> {
                &&& (#[trigger] self.seams@[i]).0 < self.positions@.len()
                &&& self.seams@[i].1 < self.positions@.len()
            }
    }
}

impl<P> MeshData<P> {
    /// Does every index and seam name a vertex, and can vertices be numbered?
    pub fn is_sound(&self) -> (r: bool)
        ensures
            r == self.wf(),
    {
        let n: usize = self.positions.len();
        if n >= u32::MAX as usize {
            return false;
        }
        let mut i: usize = 0;
        while i < self.indices.len()
            invariant
                n == self.positions@.len(),
                i <= self.indices@.len(),
                forall|k: int| 0 <= k < i ==> (#[trigger] self.indices@[k]) < n,
            decreases self.indices@.len() - i,
        {
            if self.indices[i] as usize >= n {
                assert(self.indices@[i as int] >= n);
                return false;
            }
            i += 1;
        }
        let mut i: usize = 0;
        while i < self.seams.len()
            invariant
                n == self.positions@.len(),
                i <= self.seams@.len(),
                forall|k: int|
                    0 <= k < i ==> (#[trigger] self.seams@[k]).0 < n && self.seams@[k].1 < n,
            decreases self.seams@.len() - i,
        {
            if self.seams[i].0 as usize >= n || self.seams[i].1 as usize >= n {
                assert(self.seams@[i as int].0 >= n || self.seams@[i as int].1 >= n);
                return false;
            }
            i += 1;
        }
        true
    }
}

/// The vertices that the indices name, each once, in order of first use.
pub open spec fn first_uses(indices: Seq<u32>) -> Seq<u32>
    decreases indices.len(),
{
    if indices.len() == 0 {
        seq![]
    } else {
        let before = first_uses(indices.drop_last());
        if before.contains(indices.last()) {
            before
        } else {
            before.push(indices.last())
        }
    }
}

/// The seams both ends of which are among `kept`.
pub open spec fn live_seams(seams: Seq<(u32, u32)>, kept: Seq<u32>) -> Seq<(u32, u32)>
    decreases seams.len(),
{
    if seams.len() == 0 {
        seq![]
    } else {
        let before = live_seams(seams.drop_last(), kept);
        let (a, b) = seams.last();
        if kept.contains(a) && kept.contains(b) {
            before.push((a, b))
        } else {
            before
        }
    }
}

/// `new` is the place of `old` in `kept`.
pub open spec fn renumbers(kept: Seq<u32>, old: u32, new: u32) -> bool {
    new < kept.len() && kept[new as int] == old
}

/// `new` is `old` without its unused vertices.
pub open spec fn is_compacted<P>(old: MeshData<P>, new: MeshData<P>) -> bool {
    let kept = first_uses(old.indices@);
    let live = live_seams(old.seams@, kept);
    &&& new.positions@ == Seq::new(kept.len(), |i: int| old.positions@[kept[i] as int])
    &&& new.indices@.len() == old.indices@.len()
    &&& forall|i: int|
        0 <= i < old.indices@.len() ==> renumbers(
            kept,
            old.indices@[i],
            #[trigger] new.indices@[i],
        )
    &&& new.seams@.len() == live.len()
    &&& forall|i: int| #![trigger new.seams@[i]]
        0 <= i < live.len() ==> renumbers(kept, live[i].0, new.seams@[i].0) && renumbers(
            kept,
            live[i].1,
            new.seams@[i].1,
        )
}

proof fn lemma_first_uses(indices: Seq<u32>, n: nat)
    requires
        forall|i: int| 0 <= i < indices.len() ==> (#[trigger] indices[i]) < n,
    ensures
        first_uses(indices).no_duplicates(),
        forall|i: int| 0 <= i < first_uses(indices).len() ==> {
            &&& (#[trigger] first_uses(indices)[i]) < n
            &&& indices.contains(first_uses(indices)[i])
        },
        forall|i: int|
            0 <= i < indices.len() ==> first_uses(indices).contains(#[trigger] indices[i]),
    decreases indices.len(),
{
    if indices.len() > 0 {
        let rest = indices.drop_last();
        let before = first_uses(rest);
        let x = indices.last();
        assert(x == indices[indices.len() - 1]);
        assert forall|i: int| 0 <= i < rest.len() implies (#[trigger] rest[i]) < n by {
            assert(rest[i] == indices[i]);
        }
        lemma_first_uses(rest, n);
        assert forall|i: int| 0 <= i < before.len() implies indices.contains(#[trigger] before[i]) by {
            let k = choose|k: int| 0 <= k < rest.len() && rest[k] == before[i];
            assert(indices[k] == before[i]);
        }
        let now = first_uses(indices);
        assert forall|i: int| 0 <= i < indices.len() implies now.contains(#[trigger] indices[i]) by {
            if i < rest.len() {
                assert(rest[i] == indices[i]);
                let k = choose|k: int| 0 <= k < before.len() && before[k] == indices[i];
                assert(now[k] == indices[i]);
            } else if !before.contains(x) {
                assert(now[before.len() as int] == x);
            }
        }
    }
}

/// Compaction keeps every triangle where it was, leaves no vertex unused and
/// keeps the mesh well formed.
pub proof fn law_compaction_keeps_triangles<P>(old: MeshData<P>, new: MeshData<P>)
    requires
        old.wf(),
        is_compacted(old, new),
    ensures
        new.wf(),
        new.indices@.len() == old.indices@.len(),
        forall|i: int|
            0 <= i < old.indices@.len() ==> new.positions@[(#[trigger] new.indices@[i]) as int]
                == old.positions@[old.indices@[i] as int],
        forall|v: u32| v < new.positions@.len() ==> #[trigger] new.indices@.contains(v),
{
    let kept = first_uses(old.indices@);
    let n = old.positions@.len();
    lemma_first_uses(old.indices@, n);
    lemma_distinct_vertices(kept, n);
    assert forall|v: u32| v < new.positions@.len() implies #[trigger] new.indices@.contains(v) by {
        assert(old.indices@.contains(kept[v as int]));
        let i = choose|i: int| 0 <= i < old.indices@.len() && old.indices@[i] == kept[v as int];
        let w = new.indices@[i];
        assert(renumbers(kept, old.indices@[i], w));
        assert(kept[w as int] == kept[v as int]);
    }
}

/// Drops unreferenced vertices, numbering the others by first use. Seams
/// follow; a seam whose vertices are gone is dropped.
pub fn compact<P: Copy>(mesh: &mut MeshData<P>)
    requires
        old(mesh).wf(),
    ensures
        is_compacted(*old(mesh), *final(mesh)),
{
    let count = mesh.positions.len();
    let mut remap: Vec<u32> = Vec::new();
    while remap.len() < count
        invariant
            remap@.len() <= count,
            forall|k: int| 0 <= k < remap@.len() ==> remap@[k] == u32::MAX,
        decreases count - remap@.len(),
    {
        remap.push(u32::MAX);
    }
    let mut kept: Vec<P> = Vec::new();
    let mut indices: Vec<u32> = Vec::new();
    let ghost mut uses: Seq<u32> = seq![];
    let mut i: usize = 0;
    assert(mesh.indices@.take(0) =~= seq![]);
    while i < mesh.indices.len()
        invariant
            i <= mesh.indices@.len(),
            *mesh == *old(mesh),
            mesh.wf(),
            remap@.len() == mesh.positions@.len(),
            uses == first_uses(mesh.indices@.take(i as int)),
            uses.no_duplicates(),
            forall|k: int| 0 <= k < uses.len() ==> (#[trigger] uses[k]) < mesh.positions@.len(),
            kept@ == Seq::new(uses.len(), |k: int| mesh.positions@[uses[k] as int]),
            uses.len() <= mesh.positions@.len(),
            forall|v: u32|
                v < remap@.len() ==> (#[trigger] remap@[v as int] == u32::MAX <==> !uses.contains(
                    v,
                )),
            forall|k: int|
                0 <= k < uses.len() ==> remap@[(#[trigger] uses[k]) as int] == k,
            indices@.len() == i,
            forall|k: int|
                0 <= k < i ==> renumbers(uses, mesh.indices@[k], #[trigger] indices@[k]),
        decreases mesh.indices@.len() - i,
    {
        let v = mesh.indices[i];
        let ghost before = uses;
        let ghost prefix = mesh.indices@.take(i + 1);
        proof {
            assert(prefix.drop_last() =~= mesh.indices@.take(i as int));
            assert(prefix.last() == v);
            lemma_first_uses(prefix, mesh.positions@.len());
            lemma_distinct_vertices(first_uses(prefix), mesh.positions@.len());
        }
        if remap[v as usize] == u32::MAX {
            remap.set(v as usize, kept.len() as u32);
            kept.push(mesh.positions[v as usize]);
            proof {
                uses = before.push(v);
                assert(uses[before.len() as int] == v);
                assert forall|x: u32| x < remap@.len() implies (#[trigger] remap@[x as int]
                    == u32::MAX <==> !uses.contains(x)) by {
                    if before.contains(x) {
                        let k = choose|k: int| 0 <= k < before.len() && before[k] == x;
                        assert(uses[k] == x);
                    }
                    if uses.contains(x) && x != v {
                        let k = choose|k: int| 0 <= k < uses.len() && uses[k] == x;
                        assert(before[k] == x);
                    }
                }
            }
            assert(kept@ =~= Seq::new(uses.len(), |k: int| mesh.positions@[uses[k] as int]));
        }
        let ghost written = indices@;
        indices.push(remap[v as usize]);
        proof {
            assert(uses == first_uses(prefix));
            assert(prefix[i as int] == v);
            assert(uses.contains(v));
            let p = choose|p: int| 0 <= p < uses.len() && uses[p] == v;
            assert(remap@[uses[p] as int] == p);
            assert forall|k: int| 0 <= k < i + 1 implies renumbers(
                uses,
                mesh.indices@[k],
                #[trigger] indices@[k],
            ) by {
                if k < i {
                    assert(renumbers(before, mesh.indices@[k], written[k]));
                }
            }
        }
        i += 1;
    }
    assert(mesh.indices@.take(i as int) =~= mesh.indices@);
    let mut seams: Vec<(u32, u32)> = Vec::new();
    let mut s: usize = 0;
    while s < mesh.seams.len()
        invariant
            s <= mesh.seams@.len(),
            mesh.wf(),
            remap@.len() == mesh.positions@.len(),
            uses.no_duplicates(),
            forall|v: u32|
                v < remap@.len() ==> (#[trigger] remap@[v as int] == u32::MAX <==> !uses.contains(
                    v,
                )),
            forall|k: int|
                0 <= k < uses.len() ==> remap@[(#[trigger] uses[k]) as int] == k,
            seams@.len() == live_seams(mesh.seams@.take(s as int), uses).len(),
            forall|i: int| #![trigger seams@[i]]
                0 <= i < seams@.len() ==> {
                    let live = live_seams(mesh.seams@.take(s as int), uses);
                    renumbers(uses, live[i].0, seams@[i].0) && renumbers(
                        uses,
                        live[i].1,
                        seams@[i].1,
                    )
                },
        decreases mesh.seams@.len() - s,
    {
        let (a, b) = mesh.seams[s];
        assert(mesh.seams@[s as int] == (a, b));
        let ra = remap[a as usize];
        let rb = remap[b as usize];
        if ra != u32::MAX && rb != u32::MAX {
            proof {
                let p = choose|p: int| 0 <= p < uses.len() && uses[p] == a;
                let q = choose|q: int| 0 <= q < uses.len() && uses[q] == b;
                assert(remap@[uses[p] as int] == p && remap@[uses[q] as int] == q);
            }
            seams.push((ra, rb));
        }
        s += 1;
        assert(mesh.seams@.take(s as int).drop_last() =~= mesh.seams@.take(s - 1));
        assert(mesh.seams@.take(s as int).last() == (a, b));
    }
    assert(mesh.seams@.take(s as int) =~= mesh.seams@);
    mesh.positions = kept;
    mesh.indices = indices;
    mesh.seams = seams;
}

/// Gives every corner of every triangle a vertex of its own, so that the mesh
/// is shaded in facets. No seams are left.
pub fn split_corners<P: Copy>(mesh: &MeshData<P>) -> (r: MeshData<P>)
    requires
        mesh.wf(),
        mesh.indices@.len() < u32::MAX,
    ensures
        r.wf(),
        r.indices@ == Seq::new(mesh.indices@.len(), |i: int| i as u32),
        r.positions@ == Seq::new(
            mesh.indices@.len(),
            |i: int| mesh.positions@[mesh.indices@[i] as int],
        ),
        r.seams@.len() == 0,
{
    let mut positions: Vec<P> = Vec::new();
    let mut indices: Vec<u32> = Vec::new();
    let mut n: usize = 0;
    while n < mesh.indices.len()
        invariant
            n <= mesh.indices@.len(),
            mesh.wf(),
            mesh.indices@.len() < u32::MAX,
            indices@ == Seq::new(n as nat, |i: int| i as u32),
            positions@ == Seq::new(n as nat, |i: int| mesh.positions@[mesh.indices@[i] as int]),
        decreases mesh.indices@.len() - n,
    {
        indices.push(n as u32);
        positions.push(mesh.positions[mesh.indices[n] as usize]);
        n = n + 1;
        assert(indices@ =~= Seq::new(n as nat, |i: int| i as u32));
        assert(positions@ =~= Seq::new(
            n as nat,
            |i: int| mesh.positions@[mesh.indices@[i] as int],
        ));
    }
    MeshData { positions, indices, seams: Vec::new() }
}

/// A seam stays just where both its vertices do.
pub proof fn law_seams_stay_with_their_vertices(
    seams: Seq<(u32, u32)>,
    kept: Seq<u32>,
    seam: (u32, u32),
)
    ensures
        live_seams(seams, kept).contains(seam) <==> seams.contains(seam) && kept.contains(seam.0)
            && kept.contains(seam.1),
    decreases seams.len(),
{
    if seams.len() > 0 {
        let rest = seams.drop_last();
        let before = live_seams(rest, kept);
        let now = live_seams(seams, kept);
        let last = seams[seams.len() - 1];
        assert(seams.last() == last);
        law_seams_stay_with_their_vertices(rest, kept, seam);
        if rest.contains(seam) {
            let k = choose|k: int| 0 <= k < rest.len() && rest[k] == seam;
            assert(seams[k] == seam);
        }
        if before.contains(seam) {
            let k = choose|k: int| 0 <= k < before.len() && before[k] == seam;
            assert(now[k] == seam);
        }
        if now.contains(seam) && !before.contains(seam) {
            assert(seam == last);
        }
        if kept.contains(last.0) && kept.contains(last.1) {
            assert(now[before.len() as int] == last);
        }
        if seams.contains(seam) && !rest.contains(seam) {
            let k = choose|k: int| 0 <= k < seams.len() && seams[k] == seam;
            if k < rest.len() {
                assert(rest[k] == seam);
            }
        }
    }
}

} // verus!
