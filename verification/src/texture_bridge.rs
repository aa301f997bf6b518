//! Which material layers the graphics card holds: the maps of a material are
//! loaded once, what is baked is baked anew when it has changed and held
//! still, and layers that nothing uses are given back.

use vstd::prelude::*;
use crate::pbr_import::{maybe_text, Textures, TexturesView};
use crate::text::same;

verus! {

/// The side of the layers, in pixels.
pub const WORKING_RES: u32 = 1024;

/// The number of layers to begin with.
pub const CAPACITY: u32 = 8;

/// The number of frames that a layer may go unused.
pub const EVICT_AFTER: u64 = 300;

/// The number of frames that a change must hold still before it is baked.
pub const REBAKE_DEBOUNCE: u64 = 12;

/// A layer.
#[derive(Clone, Copy, Debug)]
pub struct Entry {
    /// What the renderer knows it by, and the maps that were put into it.
    pub set: TextureSet,
    /// The fingerprint of what was baked into it.
    pub stamp: u64,
    pub last_used: u64,
    /// The fingerprint that waits to be baked, and since when.
    pub pending: Option<(u64, u64)>,
}

/// A layer with the maps that it carries.
#[derive(Clone, Copy, PartialEq, Eq, Structural, Debug)]
pub struct TextureSet {
    pub slot: u64,
    pub has_albedo: bool,
    pub has_roughness: bool,
    pub has_metallic: bool,
    pub has_occlusion: bool,
}

/// The layers that are held.
#[derive(Debug)]
pub struct TextureBridge {
    entries: Vec<(String, Entry)>,
    failed: Vec<String>,
    frame: u64,
    initialized: bool,
}

/// What a [`TextureBridge`] holds.
#[verifier::ext_equal]
pub struct BridgeView {
    pub entries: Seq<(Seq<char>, Entry)>,
    /// The materials whose files could not be loaded.
    pub failed: Seq<Seq<char>>,
    pub frame: u64,
    pub initialized: bool,
}

/// The layers by their keys.
pub open spec fn entries_view(entries: Seq<(String, Entry)>) -> Seq<(Seq<char>, Entry)> {
    Seq::new(entries.len(), |i: int| (entries[i].0@, entries[i].1))
}

/// What texts say.
pub open spec fn keys_view(keys: Seq<String>) -> Seq<Seq<char>> {
    Seq::new(keys.len(), |i: int| keys[i]@)
}

impl View for TextureBridge {
    type V = BridgeView;

    closed spec fn view(&self) -> BridgeView {
        BridgeView {
            entries: entries_view(self.entries@),
            failed: keys_view(self.failed@),
            frame: self.frame,
            initialized: self.initialized,
        }
    }
}

/// The first layer with this key among the first `n`.
pub open spec fn key_place(entries: Seq<(Seq<char>, Entry)>, key: Seq<char>, n: nat) -> Option<int>
    decreases n,
{
    if n == 0 {
        None
    } else if key_place(entries, key, (n - 1) as nat) is Some {
        key_place(entries, key, (n - 1) as nat)
    } else if entries[n - 1].0 == key {
        Some(n - 1)
    } else {
        None
    }
}

proof fn lemma_key_place(entries: Seq<(Seq<char>, Entry)>, key: Seq<char>, n: nat)
    requires
        n <= entries.len(),
    ensures
        key_place(entries, key, n) matches Some(i) ==> 0 <= i < n && entries[i].0 == key,
        key_place(entries, key, n) is None ==> forall|i: int|
            0 <= i < n ==> (#[trigger] entries[i]).0 != key,
    decreases n,
{
    if n > 0 {
        lemma_key_place(entries, key, (n - 1) as nat);
    }
}

impl BridgeView {
    /// No key occurs twice, and no layer was used in a frame to come.
    pub open spec fn wf(self) -> bool {
        &&& forall|i: int, j: int|
            0 <= i < j < self.entries.len() ==> (#[trigger] self.entries[i]).0 != (
            #[trigger] self.entries[j]).0
        &&& forall|i: int|
            0 <= i < self.entries.len() ==> (#[trigger] self.entries[i]).1.last_used <= self.frame
    }

    /// The layer of a material.
    pub open spec fn place(self, key: Seq<char>) -> Option<int> {
        key_place(self.entries, key, self.entries.len())
    }
}

/// A file's name, or nothing.
pub open spec fn part(t: Option<Seq<char>>) -> Seq<char> {
    match t {
        Some(s) => s,
        None => ""@,
    }
}

/// The material has no maps.
pub open spec fn without_maps(t: TexturesView) -> bool {
    t.albedo is None && t.normal is None && t.roughness is None && t.metallic is None
        && t.occlusion is None
}

/// The key of a material with maps.
pub open spec fn key_of(t: TexturesView) -> Seq<char> {
    "files:"@ + part(t.albedo) + "|"@ + part(t.normal) + "|"@ + part(t.roughness) + "|"@ + part(
        t.metallic,
    ) + "|"@ + part(t.occlusion)
}

fn append_part(s: &mut String, t: &Option<String>)
    ensures
        final(s)@ == old(s)@ + part(maybe_text(*t)),
{
    match t {
        Some(file) => s.append(file.as_str()),
        None => s.append(""),
    }
}

/// What is to be done for a material whose maps are files.
#[derive(Debug)]
pub enum FileRequest {
    /// It has no maps, or they cannot be loaded.
    Plain,
    Use(TextureSet),
    /// Load the maps and say what came of it.
    Load { key: String },
}

/// What is to be done for a material whose maps are files, as a value.
pub enum FileAnswer {
    Plain,
    Use(TextureSet),
    Load,
}

/// A material without maps is plain, and so is one whose maps could not be
/// loaded before; one with a layer uses it.
pub open spec fn files_answer(v: BridgeView, t: TexturesView) -> FileAnswer {
    if without_maps(t) || v.failed.contains(key_of(t)) {
        FileAnswer::Plain
    } else {
        match v.place(key_of(t)) {
            Some(i) => FileAnswer::Use(v.entries[i].1.set),
            None => FileAnswer::Load,
        }
    }
}

/// The layer of a material is used in this frame.
pub open spec fn after_files(v: BridgeView, t: TexturesView) -> BridgeView {
    if files_answer(v, t) is Use {
        let i = v.place(key_of(t))->0;
        BridgeView {
            entries: v.entries.update(
                i,
                (key_of(t), Entry { last_used: v.frame, ..v.entries[i].1 }),
            ),
            ..v
        }
    } else {
        v
    }
}

/// The maps of a layer that a picture was baked into.
pub open spec fn baked_set(slot: u64) -> TextureSet {
    TextureSet {
        slot,
        has_albedo: true,
        has_roughness: false,
        has_metallic: false,
        has_occlusion: false,
    }
}

/// What is to be done for a baked picture.
#[derive(Clone, Copy, PartialEq, Eq, Structural, Debug)]
pub enum BakeRequest {
    Use { slot: u64 },
    /// Bake it again, into the same layer.
    Update { slot: u64 },
    /// Bake it, into a new layer.
    Bake,
}

/// What is to be done for a baked picture, and what becomes of its layer.
pub open spec fn bake_step(entry: Entry, stamp: u64, frame: u64) -> (BakeRequest, Entry) {
    let used = Entry { last_used: frame, ..entry };
    if entry.stamp == stamp {
        (BakeRequest::Use { slot: entry.set.slot }, Entry { pending: None, ..used })
    } else {
        match entry.pending {
            Some((waiting, since)) => if waiting == stamp {
                if frame - since < REBAKE_DEBOUNCE {
                    (BakeRequest::Use { slot: entry.set.slot }, used)
                } else {
                    (BakeRequest::Update { slot: entry.set.slot }, used)
                }
            } else {
                (
                    BakeRequest::Use { slot: entry.set.slot },
                    Entry { pending: Some((stamp, frame)), ..used },
                )
            },
            None => (
                BakeRequest::Use { slot: entry.set.slot },
                Entry { pending: Some((stamp, frame)), ..used },
            ),
        }
    }
}

/// The layer has gone unused for too long.
pub open spec fn is_stale(entry: Entry, frame: u64) -> bool {
    frame - entry.last_used > EVICT_AFTER
}

/// The first `n` layers without those that went unused.
pub open spec fn in_use(entries: Seq<(Seq<char>, Entry)>, frame: u64, n: nat) -> Seq<
    (Seq<char>, Entry),
>
    decreases n,
{
    if n == 0 {
        seq![]
    } else if is_stale(entries[n - 1].1, frame) {
        in_use(entries, frame, (n - 1) as nat)
    } else {
        in_use(entries, frame, (n - 1) as nat).push(entries[n - 1])
    }
}

/// Those of the first `n` layers that went unused.
pub open spec fn given_back(entries: Seq<(Seq<char>, Entry)>, frame: u64, n: nat) -> Seq<u64>
    decreases n,
{
    if n == 0 {
        seq![]
    } else if is_stale(entries[n - 1].1, frame) {
        given_back(entries, frame, (n - 1) as nat).push(entries[n - 1].1.set.slot)
    } else {
        given_back(entries, frame, (n - 1) as nat)
    }
}

proof fn lemma_in_use(entries: Seq<(Seq<char>, Entry)>, frame: u64, n: nat)
    requires
        n <= entries.len(),
        forall|i: int, j: int|
            0 <= i < j < entries.len() ==> (#[trigger] entries[i]).0 != (#[trigger] entries[j]).0,
        forall|i: int| 0 <= i < entries.len() ==> (#[trigger] entries[i]).1.last_used <= frame,
    ensures
        ({
            let left = in_use(entries, frame, n);
            &&& forall|k: int|
                0 <= k < left.len() ==> exists|i: int|
                    0 <= i < n && entries[i] == #[trigger] left[k]
            &&& forall|i: int, j: int|
                0 <= i < j < left.len() ==> (#[trigger] left[i]).0 != (#[trigger] left[j]).0
        }),
    decreases n,
{
    if n > 0 {
        let m = (n - 1) as nat;
        lemma_in_use(entries, frame, m);
        let before = in_use(entries, frame, m);
        let left = in_use(entries, frame, n);
        assert forall|k: int| 0 <= k < left.len() implies exists|i: int|
            0 <= i < n && entries[i] == #[trigger] left[k] by {
            if k < before.len() {
                let i = choose|i: int| 0 <= i < m && entries[i] == before[k];
                assert(entries[i] == left[k]);
            } else {
                assert(entries[n - 1] == left[k]);
            }
        }
        assert forall|i: int, j: int| 0 <= i < j < left.len() implies (#[trigger] left[i]).0 != (
        #[trigger] left[j]).0 by {
            if j < before.len() {
                assert(before[i].0 != before[j].0);
            } else {
                let a = choose|a: int| 0 <= a < m && entries[a] == before[i];
                assert(entries[a].0 != entries[n - 1].0);
            }
        }
    }
}

impl TextureBridge {
    pub fn new() -> (r: TextureBridge)
        ensures
            r@ == (BridgeView { entries: seq![], failed: seq![], frame: 0, initialized: false }),
            r@.wf(),
    {
        let r = TextureBridge {
            entries: Vec::new(),
            failed: Vec::new(),
            frame: 0,
            initialized: false,
        };
        assert(r@ =~= (BridgeView {
            entries: seq![],
            failed: seq![],
            frame: 0,
            initialized: false,
        }));
        r
    }

    /// Have the layers to be made? They are made once.
    pub fn ensure_init(&mut self) -> (r: bool)
        ensures
            r == !old(self)@.initialized,
            final(self)@ == (BridgeView { initialized: true, ..old(self)@ }),
    {
        let first = !self.initialized;
        self.initialized = true;
        first
    }

    /// Begins a frame.
    pub fn begin_frame(&mut self)
        requires
            old(self)@.wf(),
            old(self)@.frame < u64::MAX,
        ensures
            final(self)@ == (BridgeView { frame: (old(self)@.frame + 1) as u64, ..old(self)@ }),
            final(self)@.wf(),
    {
        self.frame = self.frame + 1;
    }

    /// Ends a frame: says which layers to give back.
    pub fn end_frame(&mut self) -> (slots: Vec<u64>)
        requires
            old(self)@.wf(),
        ensures
            final(self)@ == (BridgeView {
                entries: in_use(
                    old(self)@.entries,
                    old(self)@.frame,
                    old(self)@.entries.len(),
                ),
                ..old(self)@
            }),
            final(self)@.wf(),
            slots@ == given_back(
                old(self)@.entries,
                old(self)@.frame,
                old(self)@.entries.len(),
            ),
    {
        let ghost was = self@;
        let mut slots: Vec<u64> = Vec::new();
        let mut left: Vec<(String, Entry)> = Vec::new();
        let mut entries: Vec<(String, Entry)> = Vec::new();
        std::mem::swap(&mut entries, &mut self.entries);
        let ghost all = entries@;
        assert(entries_view(left@) =~= seq![]);
        assert(entries_view(all) == was.entries);
        for item in it: entries.into_iter()
            invariant
                it.seq() == all,
                was.wf(),
                was.frame == self.frame,
                entries_view(all) == was.entries,
                slots@ == given_back(was.entries, was.frame, it.index() as nat),
                entries_view(left@) == in_use(was.entries, was.frame, it.index() as nat),
        {
            let ghost before = entries_view(left@);
            assert(was.entries[it.index()] == (all[it.index()].0@, all[it.index()].1));
            let (key, entry) = item;
            if self.frame - entry.last_used > EVICT_AFTER {
                slots.push(entry.set.slot);
            } else {
                let ghost kept = (key@, entry);
                left.push((key, entry));
                assert(entries_view(left@) =~= before.push(kept));
            }
        }
        self.entries = left;
        proof {
            lemma_in_use(was.entries, was.frame, was.entries.len());
        }
        slots
    }

    /// The key of a material's maps, where it has any.
    pub fn set_key(textures: &Textures) -> (r: Option<String>)
        ensures
            r is None == without_maps(textures@),
            r matches Some(key) ==> key@ == key_of(textures@),
    {
        if textures.albedo.is_none() && textures.normal.is_none() && textures.roughness.is_none()
            && textures.metallic.is_none() && textures.occlusion.is_none() {
            return None;
        }
        let mut s = "files:".to_owned();
        append_part(&mut s, &textures.albedo);
        s.append("|");
        append_part(&mut s, &textures.normal);
        s.append("|");
        append_part(&mut s, &textures.roughness);
        s.append("|");
        append_part(&mut s, &textures.metallic);
        s.append("|");
        append_part(&mut s, &textures.occlusion);
        Some(s)
    }

    fn find(&self, key: &str) -> (r: Option<usize>)
        ensures
            r matches Some(i) ==> self@.place(key@) == Some(i as int) && i < self@.entries.len(),
            r is None ==> self@.place(key@) is None,
    {
        let ghost all = self@.entries;
        let mut found: Option<usize> = None;
        let mut n: usize = 0;
        while n < self.entries.len()
            invariant
                n <= self.entries@.len(),
                all == entries_view(self.entries@),
                found matches Some(i) ==> key_place(all, key@, n as nat) == Some(i as int) && i < n,
                found is None ==> key_place(all, key@, n as nat) is None,
            decreases self.entries@.len() - n,
        {
            if found.is_none() && same(self.entries[n].0.as_str(), key) {
                found = Some(n);
            }
            n += 1;
        }
        found
    }

    fn has_failed(&self, key: &str) -> (r: bool)
        ensures
            r == self@.failed.contains(key@),
    {
        let ghost all = self@.failed;
        let mut n: usize = 0;
        while n < self.failed.len()
            invariant
                n <= self.failed@.len(),
                all == keys_view(self.failed@),
                forall|i: int| 0 <= i < n ==> #[trigger] all[i] != key@,
            decreases self.failed@.len() - n,
        {
            if same(self.failed[n].as_str(), key) {
                assert(all[n as int] == key@);
                return true;
            }
            n += 1;
        }
        false
    }

    /// What is to be done for a material whose maps are files. A layer that
    /// is held carries the maps that could be loaded into it.
    pub fn resolve_files(&mut self, textures: &Textures) -> (r: FileRequest)
        requires
            old(self)@.wf(),
        ensures
            final(self)@.wf(),
            final(self)@ == after_files(old(self)@, textures@),
            match files_answer(old(self)@, textures@) {
                FileAnswer::Plain => r is Plain,
                FileAnswer::Use(set) => r == FileRequest::Use(set),
                FileAnswer::Load => r matches FileRequest::Load { key } && key@ == key_of(
                    textures@,
                ),
            },
    {
        let ghost v = self@;
        match TextureBridge::set_key(textures) {
            None => FileRequest::Plain,
            Some(key) => {
                if self.has_failed(key.as_str()) {
                    return FileRequest::Plain;
                }
                match self.find(key.as_str()) {
                    Some(i) => {
                        proof {
                            lemma_key_place(v.entries, key@, v.entries.len());
                        }
                        let frame = self.frame;
                        self.entries[i].1.last_used = frame;
                        assert(self@.entries =~= v.entries.update(
                            i as int,
                            (key@, Entry { last_used: v.frame, ..v.entries[i as int].1 }),
                        ));
                        FileRequest::Use(self.entries[i].1.set)
                    },
                    None => FileRequest::Load { key },
                }
            },
        }
    }

    /// Takes what came of loading a material: its new layer with the maps
    /// that it carries, or nothing. What could not be loaded is not tried
    /// again.
    pub fn loaded(&mut self, key: String, set: Option<TextureSet>)
        requires
            old(self)@.wf(),
            old(self)@.place(key@) is None,
        ensures
            final(self)@.wf(),
            final(self)@ == (match set {
                Some(set) => with_layer(old(self)@, key@, 0, set),
                None => BridgeView { failed: old(self)@.failed.push(key@), ..old(self)@ },
            }),
    {
        match set {
            Some(set) => self.add_entry(key, 0, set),
            None => {
                let ghost v = self@;
                self.failed.push(key);
                assert(self@.failed =~= v.failed.push(key@));
            },
        }
    }

    fn add_entry(&mut self, key: String, stamp: u64, set: TextureSet)
        requires
            old(self)@.wf(),
            old(self)@.place(key@) is None,
        ensures
            final(self)@.wf(),
            final(self)@ == with_layer(old(self)@, key@, stamp, set),
    {
        let ghost v = self@;
        proof {
            lemma_key_place(v.entries, key@, v.entries.len());
        }
        let frame = self.frame;
        self.entries.push((key, Entry { set, stamp, last_used: frame, pending: None }));
        assert(self@.entries =~= with_layer(v, key@, stamp, set).entries);
    }

    /// What is to be done for a picture that is baked under a key.
    pub fn resolve_baked_albedo(&mut self, key: &str, stamp: u64) -> (r: BakeRequest)
        requires
            old(self)@.wf(),
        ensures
            final(self)@.wf(),
            match old(self)@.place(key@) {
                Some(i) => {
                    let (request, entry) = bake_step(
                        old(self)@.entries[i].1,
                        stamp,
                        old(self)@.frame,
                    );
                    r == request && final(self)@ == (BridgeView {
                        entries: old(self)@.entries.update(i, (key@, entry)),
                        ..old(self)@
                    })
                },
                None => r is Bake && final(self)@ == old(self)@,
            },
    {
        let ghost v = self@;
        match self.find(key) {
            Some(i) => {
                proof {
                    lemma_key_place(v.entries, key@, v.entries.len());
                }
                let frame = self.frame;
                let mut entry = self.entries[i].1;
                assert(entry == v.entries[i as int].1);
                entry.last_used = frame;
                let r = if entry.stamp == stamp {
                    entry.pending = None;
                    BakeRequest::Use { slot: entry.set.slot }
                } else {
                    match entry.pending {
                        Some((waiting, since)) => if waiting == stamp {
                            if frame.saturating_sub(since) < REBAKE_DEBOUNCE {
                                BakeRequest::Use { slot: entry.set.slot }
                            } else {
                                BakeRequest::Update { slot: entry.set.slot }
                            }
                        } else {
                            entry.pending = Some((stamp, frame));
                            BakeRequest::Use { slot: entry.set.slot }
                        },
                        None => {
                            entry.pending = Some((stamp, frame));
                            BakeRequest::Use { slot: entry.set.slot }
                        },
                    }
                };
                self.entries[i].1 = entry;
                assert(self@.entries =~= v.entries.update(i as int, (key@, entry)));
                r
            },
            None => BakeRequest::Bake,
        }
    }

    /// The picture was baked again into its layer.
    pub fn rebaked(&mut self, key: &str, stamp: u64)
        requires
            old(self)@.wf(),
        ensures
            final(self)@.wf(),
            match old(self)@.place(key@) {
                Some(i) => final(self)@ == (BridgeView {
                    entries: old(self)@.entries.update(
                        i,
                        (
                            key@,
                            Entry {
                                set: old(self)@.entries[i].1.set,
                                stamp,
                                last_used: old(self)@.frame,
                                pending: None,
                            },
                        ),
                    ),
                    ..old(self)@
                }),
                None => final(self)@ == old(self)@,
            },
    {
        let ghost v = self@;
        match self.find(key) {
            Some(i) => {
                proof {
                    lemma_key_place(v.entries, key@, v.entries.len());
                }
                let frame = self.frame;
                let set = self.entries[i].1.set;
                self.entries[i].1 = Entry { set, stamp, last_used: frame, pending: None };
                assert(self@.entries =~= v.entries.update(
                    i as int,
                    (key@, Entry { set, stamp, last_used: frame, pending: None }),
                ));
            },
            None => {},
        }
    }

    /// The picture was baked into a new layer: at first, or because its own
    /// layer is gone.
    pub fn baked(&mut self, key: &str, stamp: u64, slot: u64)
        requires
            old(self)@.wf(),
        ensures
            final(self)@.wf(),
            final(self)@ == with_layer(
                without_layer(old(self)@, key@),
                key@,
                stamp,
                baked_set(slot),
            ),
    {
        let ghost v = self@;
        match self.find(key) {
            Some(i) => {
                proof {
                    lemma_key_place(v.entries, key@, v.entries.len());
                }
                let gone = self.entries.remove(i);
                assert(self@.entries =~= v.entries.remove(i as int));
                assert(self@.place(key@) is None) by {
                    lemma_key_place(self@.entries, key@, self@.entries.len());
                    if self@.place(key@) is Some {
                        let k = self@.place(key@)->0;
                        let from = if k < i {
                            k
                        } else {
                            k + 1
                        };
                        assert(v.entries[from] == self@.entries[k]);
                        assert(v.entries[i as int].0 == key@);
                    }
                }
                assert forall|a: int, b: int|
                    0 <= a < b < self@.entries.len() implies (#[trigger] self@.entries[a]).0 != (
                #[trigger] self@.entries[b]).0 by {
                    let from_a = if a < i {
                        a
                    } else {
                        a + 1
                    };
                    let from_b = if b < i {
                        b
                    } else {
                        b + 1
                    };
                    assert(v.entries[from_a].0 != v.entries[from_b].0);
                }
                assert forall|a: int| 0 <= a < self@.entries.len() implies (
                #[trigger] self@.entries[a]).1.last_used <= self@.frame by {
                    let from_a = if a < i {
                        a
                    } else {
                        a + 1
                    };
                    assert(v.entries[from_a].1.last_used <= v.frame);
                }
            },
            None => {},
        }
        let set = TextureSet {
            slot,
            has_albedo: true,
            has_roughness: false,
            has_metallic: false,
            has_occlusion: false,
        };
        self.add_entry(key.to_owned(), stamp, set);
    }
}

/// With one more layer, used now.
pub open spec fn with_layer(
    v: BridgeView,
    key: Seq<char>,
    stamp: u64,
    set: TextureSet,
) -> BridgeView {
    BridgeView {
        entries: v.entries.push((key, Entry { set, stamp, last_used: v.frame, pending: None })),
        ..v
    }
}

/// Without the layer of a key.
pub open spec fn without_layer(v: BridgeView, key: Seq<char>) -> BridgeView {
    match v.place(key) {
        Some(i) => BridgeView { entries: v.entries.remove(i), ..v },
        None => v,
    }
}

/// The maps that could be read: the flags of the layer, or nothing where
/// there were none at all.
pub fn maps_found(
    albedo: bool,
    normal: bool,
    roughness: bool,
    metallic: bool,
    occlusion: bool,
    slot: u64,
) -> (r: Option<TextureSet>)
    ensures
        r == (if albedo || normal || roughness || metallic || occlusion {
            Some(
                TextureSet {
                    slot,
                    has_albedo: albedo,
                    has_roughness: roughness,
                    has_metallic: metallic,
                    has_occlusion: occlusion,
                },
            )
        } else {
            None
        }),
{
    if !albedo && !normal && !roughness && !metallic && !occlusion {
        return None;
    }
    Some(
        TextureSet {
            slot,
            has_albedo: albedo,
            has_roughness: roughness,
            has_metallic: metallic,
            has_occlusion: occlusion,
        },
    )
}

/// The size `a` is before `b`: by width, then by height.
pub open spec fn size_less(a: (usize, usize), b: (usize, usize)) -> bool {
    a.0 < b.0 || (a.0 == b.0 && a.1 < b.1)
}

/// The larger of two sizes, where there are any.
pub open spec fn larger_size(a: Option<(usize, usize)>, b: Option<(usize, usize)>) -> Option<
    (usize, usize),
> {
    match (a, b) {
        (Some(x), Some(y)) => if size_less(x, y) {
            Some(y)
        } else {
            Some(x)
        },
        (Some(x), None) => Some(x),
        (None, _) => b,
    }
}

fn pick_larger(a: Option<(usize, usize)>, b: Option<(usize, usize)>) -> (r: Option<(usize, usize)>)
    ensures
        r == larger_size(a, b),
{
    match (a, b) {
        (Some(x), Some(y)) => if x.0 < y.0 || (x.0 == y.0 && x.1 < y.1) {
            Some(y)
        } else {
            Some(x)
        },
        (Some(x), None) => Some(x),
        (None, _) => b,
    }
}

/// The size of the map that holds occlusion, roughness and metalness: that of
/// the largest of the three; nothing where there are none.
pub fn orm_size(
    roughness: Option<(usize, usize)>,
    metallic: Option<(usize, usize)>,
    occlusion: Option<(usize, usize)>,
) -> (r: Option<(usize, usize)>)
    ensures
        r == larger_size(larger_size(roughness, metallic), occlusion),
{
    pick_larger(pick_larger(roughness, metallic), occlusion)
}

proof fn lemma_used_stay(
    entries: Seq<(Seq<char>, Entry)>,
    frame: u64,
    n: nat,
    i: int,
)
    requires
        0 <= i < n <= entries.len(),
        frame - entries[i].1.last_used <= EVICT_AFTER,
    ensures
        in_use(entries, frame, n).contains(entries[i]),
    decreases n,
{
    let left = in_use(entries, frame, n);
    if i == n - 1 {
        assert(left[left.len() - 1] == entries[i]);
    } else {
        lemma_used_stay(entries, frame, (n - 1) as nat, i);
        let before = in_use(entries, frame, (n - 1) as nat);
        let k = choose|k: int| 0 <= k < before.len() && before[k] == entries[i];
        assert(left[k] == entries[i]);
    }
}

/// The first layer with a key is found where no other one has it.
proof fn lemma_place_is(v: BridgeView, key: Seq<char>, i: int)
    requires
        v.wf(),
        0 <= i < v.entries.len(),
        v.entries[i].0 == key,
    ensures
        v.place(key) == Some(i),
{
    lemma_key_place(v.entries, key, v.entries.len());
    let k = v.place(key)->0;
    if k < i {
        assert(v.entries[k].0 != v.entries[i].0);
    } else if i < k {
        assert(v.entries[i].0 != v.entries[k].0);
    }
}

/// Once the maps of a material were loaded, asking for them gives the flags
/// of those that could be read, however often it is asked.
pub proof fn law_flags_are_those_of_the_load(v: BridgeView, t: TexturesView, set: TextureSet)
    requires
        v.wf(),
        files_answer(v, t) is Load,
    ensures
        ({
            let now = with_layer(v, key_of(t), 0, set);
            &&& files_answer(now, t) == FileAnswer::Use(set)
            &&& files_answer(after_files(now, t), t) == FileAnswer::Use(set)
        }),
{
    let key = key_of(t);
    let now = with_layer(v, key, 0, set);
    lemma_key_place(v.entries, key, v.entries.len());
    assert forall|a: int, b: int| 0 <= a < b < now.entries.len() implies (
    #[trigger] now.entries[a]).0 != (#[trigger] now.entries[b]).0 by {
        assert(now.entries[a] == v.entries[a]);
        if b < v.entries.len() {
            assert(now.entries[b] == v.entries[b]);
        }
    }
    assert forall|a: int| 0 <= a < now.entries.len() implies (
    #[trigger] now.entries[a]).1.last_used <= now.frame by {
        if a < v.entries.len() {
            assert(now.entries[a] == v.entries[a]);
        }
    }
    lemma_place_is(now, key, v.entries.len() as int);
    law_asking_again_gives_the_same(now, t);
}

/// Asking twice for the maps of a material gives the same answer.
pub proof fn law_asking_again_gives_the_same(v: BridgeView, t: TexturesView)
    requires
        v.wf(),
    ensures
        files_answer(after_files(v, t), t) == files_answer(v, t),
{
    if files_answer(v, t) is Use {
        let key = key_of(t);
        let then = after_files(v, t);
        let i = v.place(key)->0;
        lemma_key_place(v.entries, key, v.entries.len());
        assert forall|a: int, b: int| 0 <= a < b < then.entries.len() implies (
        #[trigger] then.entries[a]).0 != (#[trigger] then.entries[b]).0 by {
            assert(then.entries[a].0 == v.entries[a].0);
            assert(then.entries[b].0 == v.entries[b].0);
        }
        assert forall|a: int| 0 <= a < then.entries.len() implies (
        #[trigger] then.entries[a]).1.last_used <= then.frame by {
            assert(a != i ==> then.entries[a] == v.entries[a]);
        }
        lemma_place_is(then, key, i);
    }
}

/// A layer that was used in the last frames is not given back.
pub proof fn law_used_layers_stay(v: BridgeView, i: int)
    requires
        v.wf(),
        0 <= i < v.entries.len(),
        v.frame - v.entries[i].1.last_used <= EVICT_AFTER,
    ensures
        in_use(v.entries, v.frame, v.entries.len()).contains(v.entries[i]),
{
    lemma_used_stay(v.entries, v.frame, v.entries.len(), i);
}

/// A picture that changes every frame is never baked again: a fingerprint
/// that differs from the one that waits begins to wait itself.
pub proof fn law_moving_pictures_wait(entry: Entry, stamp: u64, frame: u64)
    requires
        entry.stamp != stamp,
        entry.pending matches Some((waiting, _)) ==> waiting != stamp,
    ensures
        bake_step(entry, stamp, frame).0 == (BakeRequest::Use { slot: entry.set.slot }),
        bake_step(entry, stamp, frame).1.pending == Some((stamp, frame)),
{
}

/// A picture that has held still for long enough is baked again, into its own
/// layer.
pub proof fn law_still_pictures_are_baked(entry: Entry, stamp: u64, since: u64, frame: u64)
    requires
        entry.stamp != stamp,
        entry.pending == Some((stamp, since)),
        frame - since >= REBAKE_DEBOUNCE,
    ensures
        bake_step(entry, stamp, frame).0 == (BakeRequest::Update { slot: entry.set.slot }),
{
}

/// Every layer is kept or given back, and never both: it is given back once
/// it was not used for more than three hundred frames.
pub proof fn law_unused_layers_are_given_back(
    entries: Seq<(Seq<char>, Entry)>,
    frame: u64,
    n: nat,
    i: int,
)
    requires
        0 <= i < n <= entries.len(),
    ensures
        frame - entries[i].1.last_used > 300 ==> given_back(entries, frame, n).contains(
            entries[i].1.set.slot,
        ),
        frame - entries[i].1.last_used <= 300 ==> in_use(entries, frame, n).contains(entries[i]),
        in_use(entries, frame, n).len() + given_back(entries, frame, n).len() == n,
        forall|k: int|
            0 <= k < in_use(entries, frame, n).len() ==> frame - (#[trigger] in_use(
                entries,
                frame,
                n,
            )[k]).1.last_used <= 300,
    decreases n,
{
    let kept = in_use(entries, frame, (n - 1) as nat);
    let gone = given_back(entries, frame, (n - 1) as nat);
    let kept_now = in_use(entries, frame, n);
    let gone_now = given_back(entries, frame, n);
    if n > 1 {
        law_unused_layers_are_given_back(
            entries,
            frame,
            (n - 1) as nat,
            if i < n - 1 {
                i
            } else {
                0
            },
        );
    } else {
        assert(kept.len() == 0 && gone.len() == 0);
    }
    if i < n - 1 {
        if kept.contains(entries[i]) {
            let k = choose|k: int| 0 <= k < kept.len() && kept[k] == entries[i];
            assert(kept_now[k] == entries[i]);
        }
        if gone.contains(entries[i].1.set.slot) {
            let k = choose|k: int| 0 <= k < gone.len() && gone[k] == entries[i].1.set.slot;
            assert(gone_now[k] == entries[i].1.set.slot);
        }
    } else if is_stale(entries[i].1, frame) {
        assert(gone_now[gone.len() as int] == entries[i].1.set.slot);
    } else {
        assert(kept_now[kept.len() as int] == entries[i]);
    }
}

/// A picture that is as it was baked is used, and nothing waits any more.
/// Whatever is asked for counts as used now, in the layer it has.
pub proof fn law_baked_pictures_are_used(entry: Entry, stamp: u64, frame: u64)
    ensures
        ({
            let (request, after) = bake_step(entry, stamp, frame);
            &&& after.last_used == frame
            &&& after.set == entry.set && after.stamp == entry.stamp
            &&& entry.stamp == stamp ==> request == (BakeRequest::Use { slot: entry.set.slot })
                && after.pending is None
            &&& entry.stamp != stamp ==> (after.pending matches Some((waiting, _)) && waiting == stamp)
            &&& !(request is Bake)
        }),
{
}

/// A picture is never baked again before it has held still for twelve
/// frames.
pub proof fn law_baking_waits(entry: Entry, stamp: u64, frame: u64)
    requires
        bake_step(entry, stamp, frame).0 is Update,
    ensures
        entry.pending matches Some((waiting, since)) && waiting == stamp && frame - since >= 12,
        entry.stamp != stamp,
{
}

/// A material without maps is plain, and so is one whose maps could not be
/// loaded; maps are loaded only where there are some that are not there.
pub proof fn law_maps_are_loaded_once_asked_for(v: BridgeView, t: TexturesView)
    ensures
        without_maps(t) <==> t.albedo is None && t.normal is None && t.roughness is None
            && t.metallic is None && t.occlusion is None,
        without_maps(t) ==> files_answer(v, t) is Plain,
        v.failed.contains(key_of(t)) ==> files_answer(v, t) is Plain,
        files_answer(v, t) is Load ==> !without_maps(t) && v.place(key_of(t)) is None
            && !v.failed.contains(key_of(t)),
        files_answer(v, t) is Use ==> v.place(key_of(t)) is Some,
{
}

/// Baked pictures are of colors alone.
pub proof fn law_baked_layers_hold_colors(slot: u64)
    ensures
        baked_set(slot).slot == slot,
        baked_set(slot).has_albedo,
        !baked_set(slot).has_roughness && !baked_set(slot).has_metallic && !baked_set(
            slot,
        ).has_occlusion,
{
}

/// Of two pictures the size is that of the larger one: wider, or as wide and
/// higher; a picture that is missing does not count.
pub proof fn law_larger_picture_sets_the_size(
    a: Option<(usize, usize)>,
    b: Option<(usize, usize)>,
)
    ensures
        larger_size(a, b) == a || larger_size(a, b) == b,
        larger_size(a, b) == larger_size(b, a),
        larger_size(a, b) is None <==> a is None && b is None,
        (a matches Some(x) && larger_size(a, b) matches Some(z) && x.0 <= z.0) || a is None,
        (b matches Some(y) && larger_size(a, b) matches Some(z) && y.0 <= z.0) || b is None,
        a is None ==> larger_size(a, b) == b,
{
}

} // verus!
