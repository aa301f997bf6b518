//! Fingerprints: what an object's geometry depends on, as a sequence of
//! words, and the hash of such a sequence.

use std::collections::hash_map::DefaultHasher;
use std::hash::Hasher;
use vstd::bytes::*;
use vstd::prelude::*;
use vstd::std_specs::hash::*;
use crate::scalar::Transform;
use crate::scene::{LightKind, Primitive};

verus! {

/// What a hasher is fed: the bytes of each word, word by word.
pub open spec fn word_writes(words: Seq<u64>) -> Seq<Seq<u8>> {
    Seq::new(words.len(), |i: int| spec_u64_to_le_bytes(words[i]))
}

/// The hash of a sequence of words, with the keys that every new
/// `DefaultHasher` has.
pub open spec fn digest_of(words: Seq<u64>) -> u64 {
    DefaultHasher::spec_finish(word_writes(words))
}

/// The hash of a sequence of words.
pub fn digest(words: &Vec<u64>) -> (r: u64)
    ensures
        r == digest_of(words@),
{
    let mut h = DefaultHasher::new();
    let mut i: usize = 0;
    assert(h@ =~= word_writes(words@.take(0)));
    while i < words.len()
        invariant
            i <= words@.len(),
            h@ == word_writes(words@.take(i as int)),
        decreases words@.len() - i,
    {
        let bytes = u64_to_le_bytes(words[i]);
        h.write(bytes.as_slice());
        i += 1;
        assert(h@ =~= word_writes(words@.take(i as int)));
    }
    assert(words@.take(i as int) =~= words@);
    h.finish()
}

pub open spec fn bool_word(b: bool) -> u64 {
    if b {
        1
    } else {
        0
    }
}

pub(crate) fn bool_to_word(b: bool) -> (r: u64)
    ensures
        r == bool_word(b),
{
    if b {
        1
    } else {
        0
    }
}

pub open spec fn light_word(kind: LightKind) -> u64 {
    match kind {
        LightKind::Point => 0,
        LightKind::Sun => 1,
        LightKind::Spot => 2,
    }
}

fn light_to_word(kind: LightKind) -> (r: u64)
    ensures
        r == light_word(kind),
{
    match kind {
        LightKind::Point => 0,
        LightKind::Sun => 1,
        LightKind::Spot => 2,
    }
}

/// The words of a primitive: a tag for its variant, then its parameters,
/// numbers by their bit patterns.
pub open spec fn primitive_words(p: Primitive) -> Seq<u64> {
    match p {
        Primitive::Plane { size } => seq![
            0u64,
            size.bits as u64,
        ],
        Primitive::Cube { size } => seq![
            1u64,
            size.bits as u64,
        ],
        Primitive::UvSphere { segments, rings, radius } => seq![
            2u64,
            segments as u64,
            rings as u64,
            radius.bits as u64,
        ],
        Primitive::IcoSphere { subdivisions, radius } => seq![
            3u64,
            subdivisions as u64,
            radius.bits as u64,
        ],
        Primitive::Cylinder { vertices, radius, depth } => seq![
            4u64,
            vertices as u64,
            radius.bits as u64,
            depth.bits as u64,
        ],
        Primitive::Cone { vertices, radius_bottom, radius_top, depth } => seq![
            5u64,
            vertices as u64,
            radius_bottom.bits as u64,
            radius_top.bits as u64,
            depth.bits as u64,
        ],
        Primitive::Torus { major_segments, minor_segments, major_radius, minor_radius } => seq![
            6u64,
            major_segments as u64,
            minor_segments as u64,
            major_radius.bits as u64,
            minor_radius.bits as u64,
        ],
        Primitive::Wall { length, height, thickness } => seq![
            7u64,
            length.bits as u64,
            height.bits as u64,
            thickness.bits as u64,
        ],
        Primitive::Floor { width, depth, thickness } => seq![
            8u64,
            width.bits as u64,
            depth.bits as u64,
            thickness.bits as u64,
        ],
        Primitive::Empty { size } => seq![
            9u64,
            size.bits as u64,
        ],
        Primitive::Roof { kind, width, depth, height, overhang, ridge_x } => seq![
            11u64,
            kind as u64,
            width.bits as u64,
            depth.bits as u64,
            height.bits as u64,
            overhang.bits as u64,
            bool_word(ridge_x),
        ],
        Primitive::Light { kind, color, intensity, spot_angle_deg, shadows } => seq![
            10u64,
            light_word(kind),
            color.r.bits as u64,
            color.g.bits as u64,
            color.b.bits as u64,
            intensity.bits as u64,
            spot_angle_deg.bits as u64,
            bool_word(shadows),
        ],
        Primitive::Camera { fov_deg, clip_start, clip_end } => seq![
            14u64,
            fov_deg.bits as u64,
            clip_start.bits as u64,
            clip_end.bits as u64,
        ],
        Primitive::Rope { length, radius, segments } => seq![
            12u64,
            length.bits as u64,
            radius.bits as u64,
            segments as u64,
        ],
        Primitive::Cloth { width, height, segments_u, segments_v, stiffness } => seq![
            13u64,
            width.bits as u64,
            height.bits as u64,
            segments_u as u64,
            segments_v as u64,
            stiffness.bits as u64,
        ],
        Primitive::Terrain { size, resolution, height, seed } => seq![
            15u64,
            size.bits as u64,
            resolution as u64,
            height.bits as u64,
            seed as u64,
        ],
        Primitive::Prop { kind, seed, size } => seq![
            16u64,
            kind as u64,
            seed as u64,
            size.bits as u64,
        ],
    }
}

/// Appends the identity of a primitive: its variant and its parameters.
pub fn hash_primitive(words: &mut Vec<u64>, p: &Primitive)
    ensures
        final(words)@ == old(words)@ + primitive_words(*p),
{
    match *p {
        Primitive::Plane { size } => {
            words.push(0);
            words.push(size.bits as u64);
        },
        Primitive::Cube { size } => {
            words.push(1);
            words.push(size.bits as u64);
        },
        Primitive::UvSphere { segments, rings, radius } => {
            words.push(2);
            words.push(segments as u64);
            words.push(rings as u64);
            words.push(radius.bits as u64);
        },
        Primitive::IcoSphere { subdivisions, radius } => {
            words.push(3);
            words.push(subdivisions as u64);
            words.push(radius.bits as u64);
        },
        Primitive::Cylinder { vertices, radius, depth } => {
            words.push(4);
            words.push(vertices as u64);
            words.push(radius.bits as u64);
            words.push(depth.bits as u64);
        },
        Primitive::Cone { vertices, radius_bottom, radius_top, depth } => {
            words.push(5);
            words.push(vertices as u64);
            words.push(radius_bottom.bits as u64);
            words.push(radius_top.bits as u64);
            words.push(depth.bits as u64);
        },
        Primitive::Torus { major_segments, minor_segments, major_radius, minor_radius } => {
            words.push(6);
            words.push(major_segments as u64);
            words.push(minor_segments as u64);
            words.push(major_radius.bits as u64);
            words.push(minor_radius.bits as u64);
        },
        Primitive::Wall { length, height, thickness } => {
            words.push(7);
            words.push(length.bits as u64);
            words.push(height.bits as u64);
            words.push(thickness.bits as u64);
        },
        Primitive::Floor { width, depth, thickness } => {
            words.push(8);
            words.push(width.bits as u64);
            words.push(depth.bits as u64);
            words.push(thickness.bits as u64);
        },
        Primitive::Empty { size } => {
            words.push(9);
            words.push(size.bits as u64);
        },
        Primitive::Roof { kind, width, depth, height, overhang, ridge_x } => {
            words.push(11);
            words.push(kind as u64);
            words.push(width.bits as u64);
            words.push(depth.bits as u64);
            words.push(height.bits as u64);
            words.push(overhang.bits as u64);
            words.push(bool_to_word(ridge_x));
        },
        Primitive::Light { kind, color, intensity, spot_angle_deg, shadows } => {
            words.push(10);
            words.push(light_to_word(kind));
            words.push(color.r.bits as u64);
            words.push(color.g.bits as u64);
            words.push(color.b.bits as u64);
            words.push(intensity.bits as u64);
            words.push(spot_angle_deg.bits as u64);
            words.push(bool_to_word(shadows));
        },
        Primitive::Camera { fov_deg, clip_start, clip_end } => {
            words.push(14);
            words.push(fov_deg.bits as u64);
            words.push(clip_start.bits as u64);
            words.push(clip_end.bits as u64);
        },
        Primitive::Rope { length, radius, segments } => {
            words.push(12);
            words.push(length.bits as u64);
            words.push(radius.bits as u64);
            words.push(segments as u64);
        },
        Primitive::Cloth { width, height, segments_u, segments_v, stiffness } => {
            words.push(13);
            words.push(width.bits as u64);
            words.push(height.bits as u64);
            words.push(segments_u as u64);
            words.push(segments_v as u64);
            words.push(stiffness.bits as u64);
        },
        Primitive::Terrain { size, resolution, height, seed } => {
            words.push(15);
            words.push(size.bits as u64);
            words.push(resolution as u64);
            words.push(height.bits as u64);
            words.push(seed as u64);
        },
        Primitive::Prop { kind, seed, size } => {
            words.push(16);
            words.push(kind as u64);
            words.push(seed as u64);
            words.push(size.bits as u64);
        },
    }
    assert(words@ =~= old(words)@ + primitive_words(*p));
}

/// Two primitives have the same words only if they are the same, and no
/// primitive's words begin another's: a word sequence that starts with a
/// primitive can be read in one way only.
pub proof fn law_primitive_words_are_unambiguous(
    p: Primitive,
    q: Primitive,
    after_p: Seq<u64>,
    after_q: Seq<u64>,
)
    requires
        primitive_words(p) + after_p == primitive_words(q) + after_q,
    ensures
        p == q,
        after_p == after_q,
{
    let a = primitive_words(p);
    let b = primitive_words(q);
    let whole = a + after_p;
    assert(whole[0] == a[0]);
    assert(whole[0] == b[0]);
    assert(a.len() == b.len());
    assert forall|i: int| 0 <= i < a.len() implies a[i] == b[i] by {
        assert(whole[i] == a[i]);
        assert((b + after_q)[i] == b[i]);
    }
    assert(a =~= b);
    assert forall|i: int| 0 <= i < a.len() implies #[trigger] whole[i] == b[i] by {}
    lemma_primitive_words_injective(p, q);
    assert(after_p =~= whole.skip(a.len() as int));
    assert(after_q =~= (b + after_q).skip(b.len() as int));
}

#[verifier::rlimit(50)]
proof fn lemma_primitive_words_injective(p: Primitive, q: Primitive)
    requires
        primitive_words(p) == primitive_words(q),
    ensures
        p == q,
{
    let a = primitive_words(p);
    let b = primitive_words(q);
    assert(a[0] == b[0] && a.len() == b.len());
    assert(a.len() > 1 ==> a[1] == b[1]);
    assert(a.len() > 2 ==> a[2] == b[2]);
    assert(a.len() > 3 ==> a[3] == b[3]);
    assert(a.len() > 4 ==> a[4] == b[4]);
    assert(a.len() > 5 ==> a[5] == b[5]);
    assert(a.len() > 6 ==> a[6] == b[6]);
    assert(a.len() > 7 ==> a[7] == b[7]);
}

/// The words of a placement.
pub open spec fn transform_words(t: Transform) -> Seq<u64> {
    seq![
        t.location.x.bits as u64,
        t.location.y.bits as u64,
        t.location.z.bits as u64,
        t.rotation.x.bits as u64,
        t.rotation.y.bits as u64,
        t.rotation.z.bits as u64,
        t.rotation.w.bits as u64,
        t.scale.x.bits as u64,
        t.scale.y.bits as u64,
        t.scale.z.bits as u64,
    ]
}

/// Appends a placement.
pub fn hash_transform(words: &mut Vec<u64>, t: &Transform)
    ensures
        final(words)@ == old(words)@ + transform_words(*t),
{
    words.push(t.location.x.bits as u64);
    words.push(t.location.y.bits as u64);
    words.push(t.location.z.bits as u64);
    words.push(t.rotation.x.bits as u64);
    words.push(t.rotation.y.bits as u64);
    words.push(t.rotation.z.bits as u64);
    words.push(t.rotation.w.bits as u64);
    words.push(t.scale.x.bits as u64);
    words.push(t.scale.y.bits as u64);
    words.push(t.scale.z.bits as u64);
    assert(words@ =~= old(words)@ + transform_words(*t));
}

/// Placements with the same words are the same.
pub proof fn law_transform_words_are_unambiguous(s: Transform, t: Transform)
    requires
        transform_words(s) == transform_words(t),
    ensures
        s == t,
{
    let a = transform_words(s);
    let b = transform_words(t);
    assert(a[0] == b[0] && a[1] == b[1] && a[2] == b[2] && a[3] == b[3] && a[4] == b[4]);
    assert(a[5] == b[5] && a[6] == b[6] && a[7] == b[7] && a[8] == b[8] && a[9] == b[9]);
}

} // verus!
