//! Triangles grouped by material slot, so that each slot is one contiguous
//! range of the index buffer.

use vstd::prelude::*;

verus! {

/// Where a slot lies in the index buffer.
#[derive(Clone, Copy, PartialEq, Eq, Structural, Debug)]
pub struct SlotRange {
    pub slot: u32,
    pub offset: u32,
    pub count: u32,
}

/// The slot of triangle `t`. An assignment for another number of triangles
/// is stale and counts for nothing; a slot beyond those there are falls back
/// to the object's own material, slot 0.
pub open spec fn slot_of(assigned: Seq<u32>, triangles: nat, slots: nat, t: int) -> u32 {
    if assigned.len() == triangles && slots > 0 && assigned[t] <= slots {
        assigned[t]
    } else {
        0
    }
}

/// The indices of those of the first `n` triangles that are in `slot`.
pub open spec fn triangles_in(
    indices: Seq<u32>,
    assigned: Seq<u32>,
    triangles: nat,
    slots: nat,
    slot: u32,
    n: nat,
) -> Seq<u32>
    decreases n,
{
    if n == 0 {
        seq![]
    } else {
        let t = n - 1;
        let before = triangles_in(indices, assigned, triangles, slots, slot, (n - 1) as nat);
        if slot_of(assigned, triangles, slots, t) == slot {
            before + seq![indices[3 * t], indices[3 * t + 1], indices[3 * t + 2]]
        } else {
            before
        }
    }
}

/// `used` are the slots of the first `n` triangles, ascending.
pub open spec fn are_used(
    assigned: Seq<u32>,
    triangles: nat,
    slots: nat,
    n: nat,
    used: Seq<u32>,
) -> bool {
    &&& forall|i: int, j: int| 0 <= i < j < used.len() ==> used[i] < used[j]
    &&& forall|t: int|
        0 <= t < n ==> used.contains(#[trigger] slot_of(assigned, triangles, slots, t))
    &&& forall|i: int|
        0 <= i < used.len() ==> exists|t: int|
            0 <= t < n && #[trigger] slot_of(assigned, triangles, slots, t) == #[trigger] used[i]
}

/// The triangles slot by slot, for the first `k` slots used.
pub open spec fn grouped(
    indices: Seq<u32>,
    assigned: Seq<u32>,
    triangles: nat,
    slots: nat,
    used: Seq<u32>,
    k: nat,
) -> Seq<u32>
    decreases k,
{
    if k == 0 {
        seq![]
    } else {
        grouped(indices, assigned, triangles, slots, used, (k - 1) as nat) + triangles_in(
            indices,
            assigned,
            triangles,
            slots,
            used[k - 1],
            triangles,
        )
    }
}

/// The range of each slot used.
pub open spec fn ranges_of(
    indices: Seq<u32>,
    assigned: Seq<u32>,
    triangles: nat,
    slots: nat,
    used: Seq<u32>,
) -> Seq<SlotRange> {
    Seq::new(
        used.len(),
        |k: int|
            SlotRange {
                slot: used[k],
                offset: grouped(
                    indices,
                    assigned,
                    triangles,
                    slots,
                    used,
                    k as nat,
                ).len() as u32,
                count: triangles_in(
                    indices,
                    assigned,
                    triangles,
                    slots,
                    used[k],
                    triangles,
                ).len() as u32,
            },
    )
}

/// A mesh that is all slot 0 needs no ranges: it is drawn whole.
pub open spec fn needed(ranges: Seq<SlotRange>) -> Seq<SlotRange> {
    if ranges.len() == 1 && ranges[0].slot == 0 {
        seq![]
    } else {
        ranges
    }
}

/// How long the triangles of a slot are: three for each.
proof fn lemma_triangles_in_len(
    indices: Seq<u32>,
    assigned: Seq<u32>,
    triangles: nat,
    slots: nat,
    slot: u32,
    n: nat,
)
    ensures
        triangles_in(indices, assigned, triangles, slots, slot, n).len() <= 3 * n,
        (exists|t: int|
            0 <= t < n && #[trigger] slot_of(assigned, triangles, slots, t) == slot)
            ==> triangles_in(indices, assigned, triangles, slots, slot, n).len() > 0,
    decreases n,
{
    if n > 0 {
        lemma_triangles_in_len(indices, assigned, triangles, slots, slot, (n - 1) as nat);
    }
}

/// The length of the first `n` triangles grouped by the slots `used`, up to
/// the `k`-th.
spec fn partial_len(
    indices: Seq<u32>,
    assigned: Seq<u32>,
    triangles: nat,
    slots: nat,
    used: Seq<u32>,
    k: nat,
    n: nat,
) -> nat
    decreases k,
{
    if k == 0 {
        0
    } else {
        partial_len(indices, assigned, triangles, slots, used, (k - 1) as nat, n) + triangles_in(
            indices,
            assigned,
            triangles,
            slots,
            used[k - 1],
            n,
        ).len()
    }
}

proof fn lemma_partial_step(
    indices: Seq<u32>,
    assigned: Seq<u32>,
    triangles: nat,
    slots: nat,
    used: Seq<u32>,
    k: nat,
    n: nat,
    at: int,
)
    requires
        n > 0,
        k <= used.len(),
        0 <= at < used.len(),
        used[at] == slot_of(assigned, triangles, slots, n - 1),
        forall|i: int, j: int| 0 <= i < j < used.len() ==> used[i] < used[j],
    ensures
        partial_len(indices, assigned, triangles, slots, used, k, n) == partial_len(
            indices,
            assigned,
            triangles,
            slots,
            used,
            k,
            (n - 1) as nat,
        ) + if at < k {
            3nat
        } else {
            0
        },
    decreases k,
{
    if k > 0 {
        lemma_partial_step(
            indices,
            assigned,
            triangles,
            slots,
            used,
            (k - 1) as nat,
            n,
            at,
        );
        if at < k - 1 {
            assert(used[at] < used[k - 1]);
        } else if k - 1 < at {
            assert(used[k - 1] < used[at]);
        }
    }
}

proof fn lemma_partial_len(
    indices: Seq<u32>,
    assigned: Seq<u32>,
    triangles: nat,
    slots: nat,
    used: Seq<u32>,
    n: nat,
)
    requires
        forall|i: int, j: int| 0 <= i < j < used.len() ==> used[i] < used[j],
        forall|t: int|
            0 <= t < n ==> used.contains(#[trigger] slot_of(assigned, triangles, slots, t)),
    ensures
        partial_len(indices, assigned, triangles, slots, used, used.len(), n) == 3 * n,
    decreases n,
{
    if n == 0 {
        lemma_partial_zero(indices, assigned, triangles, slots, used, used.len());
    } else {
        lemma_partial_len(indices, assigned, triangles, slots, used, (n - 1) as nat);
        let s = slot_of(assigned, triangles, slots, n - 1);
        assert(used.contains(s));
        let at = choose|i: int| 0 <= i < used.len() && used[i] == s;
        lemma_partial_step(indices, assigned, triangles, slots, used, used.len(), n, at);
    }
}

proof fn lemma_partial_zero(
    indices: Seq<u32>,
    assigned: Seq<u32>,
    triangles: nat,
    slots: nat,
    used: Seq<u32>,
    k: nat,
)
    ensures
        partial_len(indices, assigned, triangles, slots, used, k, 0) == 0,
    decreases k,
{
    if k > 0 {
        lemma_partial_zero(indices, assigned, triangles, slots, used, (k - 1) as nat);
    }
}

proof fn lemma_grouped_len(
    indices: Seq<u32>,
    assigned: Seq<u32>,
    triangles: nat,
    slots: nat,
    used: Seq<u32>,
    k: nat,
)
    ensures
        grouped(indices, assigned, triangles, slots, used, k).len() == partial_len(
            indices,
            assigned,
            triangles,
            slots,
            used,
            k,
            triangles,
        ),
    decreases k,
{
    if k > 0 {
        lemma_grouped_len(indices, assigned, triangles, slots, used, (k - 1) as nat);
    }
}

proof fn lemma_grouped_grows(
    indices: Seq<u32>,
    assigned: Seq<u32>,
    triangles: nat,
    slots: nat,
    used: Seq<u32>,
    k: nat,
    m: nat,
)
    requires
        k <= m,
    ensures
        grouped(indices, assigned, triangles, slots, used, k).len() <= grouped(
            indices,
            assigned,
            triangles,
            slots,
            used,
            m,
        ).len(),
    decreases m,
{
    if k < m {
        lemma_grouped_grows(indices, assigned, triangles, slots, used, k, (m - 1) as nat);
    }
}

/// The ranges follow one another without a gap, none is empty, and together
/// they cover every triangle.
pub proof fn law_ranges_cover_the_mesh(
    indices: Seq<u32>,
    assigned: Seq<u32>,
    slots: nat,
    used: Seq<u32>,
)
    requires
        indices.len() <= u32::MAX,
        are_used(assigned, indices.len() / 3, slots, indices.len() / 3, used),
    ensures
        ({
            let triangles = indices.len() / 3;
            let ranges = ranges_of(indices, assigned, triangles, slots, used);
            &&& grouped(indices, assigned, triangles, slots, used, used.len()).len() == 3
                * triangles
            &&& forall|k: int| 0 <= k < ranges.len() ==> (#[trigger] ranges[k]).count > 0
            &&& ranges.len() > 0 ==> ranges[0].offset == 0 && ranges.last().offset
                + ranges.last().count == 3 * triangles
            &&& forall|k: int|
                0 <= k < ranges.len() - 1 ==> #[trigger] ranges[k + 1].offset == ranges[k].offset
                    + ranges[k].count
        }),
{
    let triangles = indices.len() / 3;
    let ranges = ranges_of(indices, assigned, triangles, slots, used);
    lemma_partial_len(indices, assigned, triangles, slots, used, triangles);
    lemma_grouped_len(indices, assigned, triangles, slots, used, used.len());
    assert forall|k: int| 0 <= k < ranges.len() implies (#[trigger] ranges[k]).count > 0
        && ranges[k].offset == grouped(
        indices,
        assigned,
        triangles,
        slots,
        used,
        k as nat,
    ).len() && ranges[k].offset + ranges[k].count == grouped(
        indices,
        assigned,
        triangles,
        slots,
        used,
        (k + 1) as nat,
    ).len() by {
        lemma_triangles_in_len(indices, assigned, triangles, slots, used[k], triangles);
        lemma_grouped_grows(
            indices,
            assigned,
            triangles,
            slots,
            used,
            (k + 1) as nat,
            used.len(),
        );
        lemma_grouped_grows(indices, assigned, triangles, slots, used, k as nat, (k + 1) as nat);
        let t = choose|t: int|
            0 <= t < triangles && #[trigger] slot_of(assigned, triangles, slots, t) == used[k];
    }
    if ranges.len() > 0 {
        let last = ranges.len() - 1;
        assert(ranges[last].offset + ranges[last].count == 3 * triangles);
        assert(ranges[0].offset == 0);
    }
    assert forall|k: int| 0 <= k < ranges.len() - 1 implies #[trigger] ranges[k + 1].offset
        == ranges[k].offset + ranges[k].count by {
        assert(ranges[k].count > 0);
    }
}

fn slot_at(assigned: &Vec<u32>, triangles: usize, slots: usize, t: usize) -> (r: u32)
    requires
        t < triangles,
    ensures
        r == slot_of(assigned@, triangles as nat, slots as nat, t as int),
{
    if assigned.len() == triangles && slots > 0 && assigned[t] as usize <= slots {
        assigned[t]
    } else {
        0
    }
}

/// Adds a slot to an ascending list, once.
fn note_slot(used: &mut Vec<u32>, slot: u32)
    requires
        forall|i: int, j: int| 0 <= i < j < old(used)@.len() ==> old(used)@[i] < old(used)@[j],
    ensures
        forall|i: int, j: int|
            0 <= i < j < final(used)@.len() ==> final(used)@[i] < final(used)@[j],
        forall|s: u32|
            #[trigger] final(used)@.contains(s) <==> s == slot || old(used)@.contains(s),
{
    let ghost before = used@;
    let mut i: usize = 0;
    while i < used.len() && used[i] < slot
        invariant
            i <= used@.len(),
            *used == *old(used),
            forall|k: int| 0 <= k < i ==> used@[k] < slot,
        decreases used@.len() - i,
    {
        i += 1;
    }
    if i < used.len() && used[i] == slot {
        assert(before[i as int] == slot);
        return;
    }
    used.insert(i, slot);
    proof {
        let now = used@;
        assert(now[i as int] == slot);
        assert forall|a: int, b: int| 0 <= a < b < now.len() implies now[a] < now[b] by {
            let x = if a < i { a } else { a - 1 };
            let y = if b < i { b } else { b - 1 };
            if a != i {
                assert(now[a] == before[x]);
            }
            if b != i {
                assert(now[b] == before[y]);
            }
            if a == i {
                if y > i {
                    assert(before[i as int] < before[y]);
                }
            }
        }
        assert forall|s: u32| #[trigger] now.contains(s) <==> s == slot || before.contains(s) by {
            if now.contains(s) && s != slot {
                let k = choose|k: int| 0 <= k < now.len() && now[k] == s;
                let m = if k < i { k } else { k - 1 };
                assert(before[m] == s);
            }
            if before.contains(s) {
                let k = choose|k: int| 0 <= k < before.len() && before[k] == s;
                let m = if k < i { k } else { k + 1 };
                assert(now[m] == s);
            }
        }
    }
}

/// `out` are the triangles grouped by the slots `used`, with these ranges.
pub open spec fn is_grouping(
    indices: Seq<u32>,
    assigned: Seq<u32>,
    slots: nat,
    used: Seq<u32>,
    out: Seq<u32>,
    ranges: Seq<SlotRange>,
) -> bool {
    let triangles = indices.len() / 3;
    &&& are_used(assigned, triangles, slots, triangles, used)
    &&& out == grouped(indices, assigned, triangles, slots, used, used.len())
    &&& ranges == needed(ranges_of(indices, assigned, triangles, slots, used))
}

/// Groups the triangles by slot. Returns the reordered indices and the range
/// of each slot, none where the mesh is all slot 0.
pub fn group_by_slot(indices: &Vec<u32>, assigned: &Vec<u32>, slots: usize) -> (r: (
    Vec<u32>,
    Vec<SlotRange>,
))
    requires
        indices@.len() <= u32::MAX,
    ensures
        exists|used: Seq<u32>|
            #[trigger] is_grouping(indices@, assigned@, slots as nat, used, r.0@, r.1@),
{
    let triangles: usize = indices.len() / 3;
    let total: usize = indices.len();
    let mut used: Vec<u32> = Vec::new();
    let mut t: usize = 0;
    while t < triangles
        invariant
            t <= triangles,
            are_used(assigned@, triangles as nat, slots as nat, t as nat, used@),
        decreases triangles - t,
    {
        let s = slot_at(assigned, triangles, slots, t);
        let ghost before = used@;
        note_slot(&mut used, s);
        proof {
            assert forall|k: int| 0 <= k < t + 1 implies used@.contains(
                #[trigger] slot_of(assigned@, triangles as nat, slots as nat, k),
            ) by {
                if k < t {
                    assert(before.contains(slot_of(assigned@, triangles as nat, slots as nat, k)));
                }
            }
            assert forall|i: int| 0 <= i < used@.len() implies exists|k: int|
                0 <= k < t + 1 && #[trigger] slot_of(assigned@, triangles as nat, slots as nat, k)
                    == #[trigger] used@[i] by {
                let v = used@[i];
                assert(used@.contains(v));
                if v == s {
                    assert(slot_of(assigned@, triangles as nat, slots as nat, t as int) == v);
                } else {
                    assert(before.contains(v));
                    let j = choose|j: int| 0 <= j < before.len() && before[j] == v;
                    let k = choose|k: int|
                        0 <= k < t && #[trigger] slot_of(
                            assigned@,
                            triangles as nat,
                            slots as nat,
                            k,
                        ) == before[j];
                    assert(slot_of(assigned@, triangles as nat, slots as nat, k) == v);
                }
            }
        }
        t += 1;
    }
    let ghost tn = triangles as nat;
    let ghost sn = slots as nat;
    let mut out: Vec<u32> = Vec::new();
    let mut ranges: Vec<SlotRange> = Vec::new();
    proof {
        lemma_partial_len(indices@, assigned@, tn, sn, used@, tn);
        lemma_grouped_len(indices@, assigned@, tn, sn, used@, used@.len());
    }
    let mut k: usize = 0;
    while k < used.len()
        invariant
            k <= used@.len(),
            total == indices@.len(),
            triangles == indices@.len() / 3,
            tn == triangles,
            sn == slots,
            indices@.len() <= u32::MAX,
            are_used(assigned@, tn, sn, tn, used@),
            grouped(indices@, assigned@, tn, sn, used@, used@.len()).len() == 3 * tn,
            out@ == grouped(indices@, assigned@, tn, sn, used@, k as nat),
            ranges@ == ranges_of(indices@, assigned@, tn, sn, used@).take(k as int),
        decreases used@.len() - k,
    {
        let slot = used[k];
        let offset: usize = out.len();
        let ghost before = out@;
        let mut t: usize = 0;
        assert(before + triangles_in(indices@, assigned@, tn, sn, slot, 0) =~= before);
        while t < triangles
            invariant
                t <= triangles,
                total == indices@.len(),
                triangles == indices@.len() / 3,
                tn == triangles,
                sn == slots,
                out@ == before + triangles_in(indices@, assigned@, tn, sn, slot, t as nat),
            decreases triangles - t,
        {
            let ghost was = triangles_in(indices@, assigned@, tn, sn, slot, t as nat);
            if slot_at(assigned, triangles, slots, t) == slot {
                out.push(indices[3 * t]);
                out.push(indices[3 * t + 1]);
                out.push(indices[3 * t + 2]);
                assert(out@ =~= before + (was + seq![
                    indices@[3 * t],
                    indices@[3 * t + 1],
                    indices@[3 * t + 2],
                ]));
            }
            t += 1;
        }
        proof {
            lemma_triangles_in_len(indices@, assigned@, tn, sn, slot, tn);
            lemma_grouped_grows(
                indices@,
                assigned@,
                tn,
                sn,
                used@,
                (k + 1) as nat,
                used@.len(),
            );
        }
        let count: usize = out.len() - offset;
        ranges.push(SlotRange { slot, offset: offset as u32, count: count as u32 });
        k += 1;
        assert(ranges@ =~= ranges_of(indices@, assigned@, tn, sn, used@).take(k as int));
    }
    assert(ranges@ =~= ranges_of(indices@, assigned@, tn, sn, used@));
    assert(are_used(assigned@, tn, sn, tn, used@));
    if ranges.len() == 1 && ranges[0].slot == 0 {
        let none: Vec<SlotRange> = Vec::new();
        assert(none@ =~= needed(ranges@));
        let r = (out, none);
        assert(is_grouping(indices@, assigned@, slots as nat, used@, r.0@, r.1@));
        return r;
    }
    let r = (out, ranges);
    assert(is_grouping(indices@, assigned@, slots as nat, used@, r.0@, r.1@));
    r
}

/// A triangle goes to the slot it is assigned to. Where the assignment does
/// not fit the mesh, or names a slot that there is not, it goes to the first.
pub proof fn law_triangles_go_to_their_slot(assigned: Seq<u32>, triangles: nat, slots: nat, t: int)
    ensures
        slot_of(assigned, triangles, slots, t) <= slots,
        assigned.len() == triangles && slots > 0 && assigned[t] <= slots ==> slot_of(
            assigned,
            triangles,
            slots,
            t,
        ) == assigned[t],
        assigned.len() != triangles || slots == 0 || assigned[t] > slots ==> slot_of(
            assigned,
            triangles,
            slots,
            t,
        ) == 0,
{
}

/// Triangles stay whole, in order and turned as they are: the triangle `t`
/// is put, as its three corners, into its own slot, after those before it,
/// and into no other.
pub proof fn law_triangles_stay_whole(
    indices: Seq<u32>,
    assigned: Seq<u32>,
    triangles: nat,
    slots: nat,
    slot: u32,
    t: nat,
)
    ensures
        ({
            let before = triangles_in(indices, assigned, triangles, slots, slot, t);
            let after = triangles_in(indices, assigned, triangles, slots, slot, t + 1);
            &&& slot_of(assigned, triangles, slots, t as int) != slot ==> after == before
            &&& slot_of(assigned, triangles, slots, t as int) == slot ==> {
                &&& after.len() == before.len() + 3
                &&& before.is_prefix_of(after)
                &&& after[after.len() - 3] == indices[3 * t as int]
                &&& after[after.len() - 2] == indices[3 * t as int + 1]
                &&& after[after.len() - 1] == indices[3 * t as int + 2]
            }
        }),
{
}

proof fn lemma_group_is_prefix(
    indices: Seq<u32>,
    assigned: Seq<u32>,
    triangles: nat,
    slots: nat,
    used: Seq<u32>,
    j: nat,
    k: nat,
)
    requires
        j <= k,
    ensures
        grouped(indices, assigned, triangles, slots, used, j).is_prefix_of(
            grouped(indices, assigned, triangles, slots, used, k),
        ),
    decreases k,
{
    if j < k {
        lemma_group_is_prefix(indices, assigned, triangles, slots, used, j, (k - 1) as nat);
    }
}

/// A range of the grouped mesh holds exactly the triangles of its slot.
pub proof fn law_ranges_hold_their_slot(
    indices: Seq<u32>,
    assigned: Seq<u32>,
    slots: nat,
    used: Seq<u32>,
    k: int,
)
    requires
        indices.len() <= u32::MAX,
        are_used(assigned, indices.len() / 3, slots, indices.len() / 3, used),
        0 <= k < used.len(),
    ensures
        ({
            let triangles = indices.len() / 3;
            let out = grouped(indices, assigned, triangles, slots, used, used.len());
            let r = ranges_of(indices, assigned, triangles, slots, used)[k];
            &&& r.slot == used[k]
            &&& r.offset + r.count <= out.len()
            &&& out.subrange(r.offset as int, r.offset + r.count) == triangles_in(
                indices,
                assigned,
                triangles,
                slots,
                used[k],
                triangles,
            )
        }),
{
    let triangles = indices.len() / 3;
    law_ranges_cover_the_mesh(indices, assigned, slots, used);
    let out = grouped(indices, assigned, triangles, slots, used, used.len());
    let before = grouped(indices, assigned, triangles, slots, used, k as nat);
    let upto = grouped(indices, assigned, triangles, slots, used, (k + 1) as nat);
    let own = triangles_in(indices, assigned, triangles, slots, used[k], triangles);
    lemma_group_is_prefix(indices, assigned, triangles, slots, used, k as nat, used.len());
    lemma_group_is_prefix(indices, assigned, triangles, slots, used, (k + 1) as nat, used.len());
    assert(upto == before + own);
    assert(out.len() == 3 * triangles);
    let r = ranges_of(indices, assigned, triangles, slots, used)[k];
    assert(r.offset == before.len());
    assert(r.count == own.len());
    assert forall|i: int| 0 <= i < own.len() implies out[before.len() + i] == own[i] by {
        assert(upto[before.len() + i] == own[i]);
    }
    assert(out.subrange(r.offset as int, r.offset + r.count) =~= own);
}

/// Ranges are given up only where the whole mesh has the first slot.
pub proof fn law_one_slot_needs_no_ranges(ranges: Seq<SlotRange>)
    ensures
        needed(ranges) == ranges || needed(ranges).len() == 0,
        ranges.len() > 1 ==> needed(ranges) == ranges,
        ranges.len() == 1 && ranges[0].slot != 0 ==> needed(ranges) == ranges,
        ranges.len() == 1 && ranges[0].slot == 0 ==> needed(ranges).len() == 0,
{
}

} // verus!
