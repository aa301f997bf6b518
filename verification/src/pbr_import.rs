//! Importing a PBR material: which maps it has, how they are downloaded one
//! by one, and what becomes of them in the local collection.

use vstd::prelude::*;
use crate::json::{field, parse_json, parsed_json, text_of, Json, JsonView};
use crate::scalar::{Scalar, ONE_BITS};
use crate::text::{join, same};

verus! {

/// One half: the roughness of an imported material.
pub const HALF_BITS: u32 = 0x3f00_0000;

/// A map to download: its name and where it is.
pub type MapUrl = (String, String);

/// What the maps to download are.
pub open spec fn maps_view(maps: Seq<MapUrl>) -> Seq<(Seq<char>, Seq<char>)> {
    Seq::new(maps.len(), |i: int| (maps[i].0@, maps[i].1@))
}

proof fn lemma_maps_push(maps: Seq<MapUrl>, m: MapUrl)
    ensures
        maps_view(maps.push(m)) == maps_view(maps).push((m.0@, m.1@)),
{
    assert(maps_view(maps.push(m)) =~= maps_view(maps).push((m.0@, m.1@)));
}

/// Where the maps of an ambientCG asset are, up to the name of the map.
pub open spec fn ambient_base(id: Seq<char>) -> Seq<char> {
    "https://f003.backblazeb2.com/file/ambientCG-Web/media/surface-preview/"@ + id + "/"@ + id
        + "_SQ_"@
}

/// The maps of an ambientCG asset. Not every asset has all of them.
pub open spec fn ambient_maps(id: Seq<char>) -> Seq<(Seq<char>, Seq<char>)> {
    let base = ambient_base(id);
    seq![
        ("albedo"@, base + "Color.jpg"@),
        ("normal"@, base + "NormalGL.jpg"@),
        ("roughness"@, base + "Roughness.jpg"@),
        ("occlusion"@, base + "AmbientOcclusion.jpg"@),
        ("metallic"@, base + "Metalness.jpg"@),
    ]
}

fn push_map(maps: &mut Vec<MapUrl>, name: &str, url: String)
    ensures
        maps_view(final(maps)@) == maps_view(old(maps)@).push((name@, url@)),
{
    let m = (name.to_owned(), url);
    proof {
        lemma_maps_push(maps@, m);
    }
    maps.push(m);
}

/// The maps of an ambientCG asset.
pub fn ambientcg_map_urls(asset_id: &str) -> (r: Vec<MapUrl>)
    ensures
        maps_view(r@) == ambient_maps(asset_id@),
{
    let mut base = join(
        "https://f003.backblazeb2.com/file/ambientCG-Web/media/surface-preview/",
        asset_id,
    );
    base.append("/");
    base.append(asset_id);
    base.append("_SQ_");
    let mut maps: Vec<MapUrl> = Vec::new();
    assert(maps_view(maps@) =~= seq![]);
    push_map(&mut maps, "albedo", join(base.as_str(), "Color.jpg"));
    push_map(&mut maps, "normal", join(base.as_str(), "NormalGL.jpg"));
    push_map(&mut maps, "roughness", join(base.as_str(), "Roughness.jpg"));
    push_map(&mut maps, "occlusion", join(base.as_str(), "AmbientOcclusion.jpg"));
    push_map(&mut maps, "metallic", join(base.as_str(), "Metalness.jpg"));
    assert(maps_view(maps@) =~= ambient_maps(asset_id@));
    maps
}

/// Where a map of a Poly Haven asset is, as a JPEG of a thousand pixels.
pub open spec fn poly_url(v: JsonView, map: Seq<char>) -> Option<Seq<char>> {
    match field(v, map) {
        Some(m) => match field(m, "1k"@) {
            Some(k) => match field(k, "jpg"@) {
                Some(j) => match field(j, "url"@) {
                    Some(u) => text_of(u),
                    None => None,
                },
                None => None,
            },
            None => None,
        },
        None => None,
    }
}

fn read_poly_url(v: &Json, map: &str) -> (r: Option<String>)
    ensures
        (match r {
            Some(u) => Some(u@),
            None => None,
        }) == poly_url(v@, map@),
{
    match v.get(map) {
        Some(m) => match m.get("1k") {
            Some(k) => match k.get("jpg") {
                Some(j) => match j.get("url") {
                    Some(u) => match u.as_str() {
                        Some(s) => Some(s.to_owned()),
                        None => None,
                    },
                    None => None,
                },
                None => None,
            },
            None => None,
        },
        None => None,
    }
}

/// The first of two that is there.
pub open spec fn first_of(a: Option<Seq<char>>, b: Option<Seq<char>>) -> Option<Seq<char>> {
    if a is Some {
        a
    } else {
        b
    }
}

/// A list of one map, or of none.
pub open spec fn maybe_map(name: Seq<char>, url: Option<Seq<char>>) -> Seq<(Seq<char>, Seq<char>)> {
    match url {
        Some(u) => seq![(name, u)],
        None => seq![],
    }
}

/// The maps of a Poly Haven asset, given its list of files. Where roughness
/// has no map of its own, one that packs occlusion, roughness and metalness
/// stands for all three.
pub open spec fn poly_maps(v: JsonView) -> Seq<(Seq<char>, Seq<char>)> {
    let albedo = first_of(
        poly_url(v, "Diffuse"@),
        first_of(poly_url(v, "diff"@), poly_url(v, "Color"@)),
    );
    let normal = first_of(
        poly_url(v, "nor_gl"@),
        first_of(poly_url(v, "Nor"@), poly_url(v, "normal"@)),
    );
    let rough = poly_url(v, "Rough"@);
    let metal = first_of(poly_url(v, "Metal"@), poly_url(v, "metal"@));
    let arm = if rough is None {
        poly_url(v, "arm"@)
    } else {
        None
    };
    maybe_map("albedo"@, albedo) + maybe_map("normal"@, normal) + maybe_map("roughness"@, rough)
        + maybe_map("occlusion"@, poly_url(v, "AO"@)) + maybe_map("metallic"@, metal) + maybe_map(
        "roughness"@,
        arm,
    ) + maybe_map("occlusion"@, arm) + maybe_map("metallic"@, arm)
}

fn push_maybe(maps: &mut Vec<MapUrl>, name: &str, url: Option<String>)
    ensures
        maps_view(final(maps)@) == maps_view(old(maps)@) + maybe_map(
            name@,
            match url {
                Some(u) => Some(u@),
                None => None,
            },
        ),
{
    match url {
        Some(u) => {
            let ghost before = maps_view(maps@);
            let ghost said = u@;
            push_map(maps, name, u);
            assert(maps_view(maps@) =~= before + seq![(name@, said)]);
        },
        None => {
            assert(maps_view(maps@) =~= maps_view(maps@) + seq![]);
        },
    }
}

fn read_first(v: &Json, a: &str, b: &str, c: &str) -> (r: Option<String>)
    ensures
        (match r {
            Some(u) => Some(u@),
            None => None,
        }) == first_of(poly_url(v@, a@), first_of(poly_url(v@, b@), poly_url(v@, c@))),
{
    match read_poly_url(v, a) {
        Some(u) => Some(u),
        None => match read_poly_url(v, b) {
            Some(u) => Some(u),
            None => read_poly_url(v, c),
        },
    }
}

fn copy_of(url: &Option<String>) -> (r: Option<String>)
    ensures
        (match r {
            Some(u) => Some(u@),
            None => None,
        }) == (match *url {
            Some(u) => Some(u@),
            None => None,
        }),
{
    match url {
        Some(u) => Some(u.as_str().to_owned()),
        None => None,
    }
}

/// The outcome of looking for maps, by what it says.
pub open spec fn maps_outcome(r: Result<Vec<MapUrl>, String>) -> Result<
    Seq<(Seq<char>, Seq<char>)>,
    Seq<char>,
> {
    match r {
        Ok(maps) => Ok(maps_view(maps@)),
        Err(e) => Err(e@),
    }
}

/// The maps of a Poly Haven asset, or what is said where it has none.
pub open spec fn poly_maps_outcome(v: JsonView) -> Result<Seq<(Seq<char>, Seq<char>)>, Seq<char>> {
    if poly_maps(v).len() == 0 {
        Err("no 1k jpg maps found"@)
    } else {
        Ok(poly_maps(v))
    }
}

/// The maps of a Poly Haven asset, given its list of files.
pub fn read_poly_maps(v: &Json) -> (r: Result<Vec<MapUrl>, String>)
    ensures
        maps_outcome(r) == poly_maps_outcome(v@),
{
    let mut maps: Vec<MapUrl> = Vec::new();
    assert(maps_view(maps@) =~= seq![]);
    push_maybe(&mut maps, "albedo", read_first(v, "Diffuse", "diff", "Color"));
    push_maybe(&mut maps, "normal", read_first(v, "nor_gl", "Nor", "normal"));
    let rough = read_poly_url(v, "Rough");
    let has_rough = rough.is_some();
    push_maybe(&mut maps, "roughness", rough);
    push_maybe(&mut maps, "occlusion", read_poly_url(v, "AO"));
    let metal = match read_poly_url(v, "Metal") {
        Some(u) => Some(u),
        None => read_poly_url(v, "metal"),
    };
    push_maybe(&mut maps, "metallic", metal);
    let arm = if has_rough {
        None
    } else {
        read_poly_url(v, "arm")
    };
    push_maybe(&mut maps, "roughness", copy_of(&arm));
    push_maybe(&mut maps, "occlusion", copy_of(&arm));
    push_maybe(&mut maps, "metallic", arm);
    assert(maps_view(maps@) =~= poly_maps(v@));
    if maps.len() == 0 {
        Err("no 1k jpg maps found".to_owned())
    } else {
        Ok(maps)
    }
}

/// The maps of a Poly Haven asset, given the text of its list of files.
pub fn polyhaven_map_urls_from_files_json(body: &str) -> (r: Result<Vec<MapUrl>, String>)
    ensures
        maps_outcome(r) == (match parsed_json(body@) {
            Ok(v) => poly_maps_outcome(v),
            Err(e) => Err("files json: "@ + e),
        }),
{
    match parse_json(body) {
        Ok(v) => read_poly_maps(&v),
        Err(e) => Err(join("files json: ", e.as_str())),
    }
}

/// The files of a material, by map: keys of the texture cache.
#[derive(Debug)]
pub struct Textures {
    pub albedo: Option<String>,
    pub normal: Option<String>,
    pub roughness: Option<String>,
    pub metallic: Option<String>,
    pub occlusion: Option<String>,
}

/// What the files of a material are.
pub struct TexturesView {
    pub albedo: Option<Seq<char>>,
    pub normal: Option<Seq<char>>,
    pub roughness: Option<Seq<char>>,
    pub metallic: Option<Seq<char>>,
    pub occlusion: Option<Seq<char>>,
}

/// What an optional text says.
pub open spec fn maybe_text(s: Option<String>) -> Option<Seq<char>> {
    match s {
        Some(s) => Some(s@),
        None => None,
    }
}

impl View for Textures {
    type V = TexturesView;

    open spec fn view(&self) -> TexturesView {
        TexturesView {
            albedo: maybe_text(self.albedo),
            normal: maybe_text(self.normal),
            roughness: maybe_text(self.roughness),
            metallic: maybe_text(self.metallic),
            occlusion: maybe_text(self.occlusion),
        }
    }
}

/// A material without maps.
pub open spec fn no_textures() -> TexturesView {
    TexturesView { albedo: None, normal: None, roughness: None, metallic: None, occlusion: None }
}

/// The files with that of one more map. Maps of other names are ignored.
pub open spec fn with_map(t: TexturesView, map: Seq<char>, file: Seq<char>) -> TexturesView {
    if map == "albedo"@ {
        TexturesView { albedo: Some(file), ..t }
    } else if map == "normal"@ {
        TexturesView { normal: Some(file), ..t }
    } else if map == "roughness"@ {
        TexturesView { roughness: Some(file), ..t }
    } else if map == "metallic"@ {
        TexturesView { metallic: Some(file), ..t }
    } else if map == "occlusion"@ {
        TexturesView { occlusion: Some(file), ..t }
    } else {
        t
    }
}

fn set_map(t: &mut Textures, map: &str, file: String)
    ensures
        final(t)@ == with_map(old(t)@, map@, file@),
{
    if same(map, "albedo") {
        t.albedo = Some(file);
    } else if same(map, "normal") {
        t.normal = Some(file);
    } else if same(map, "roughness") {
        t.roughness = Some(file);
    } else if same(map, "metallic") {
        t.metallic = Some(file);
    } else if same(map, "occlusion") {
        t.occlusion = Some(file);
    }
}

/// The key of the file of a map.
pub open spec fn map_file(source: Seq<char>, id: Seq<char>, map: Seq<char>) -> Seq<char> {
    source + "/"@ + id + "/"@ + map + ".jpg"@
}

fn file_of(source: &str, id: &str, map: &str) -> (r: String)
    ensures
        r@ == map_file(source@, id@, map@),
{
    let mut s = join(source, "/");
    s.append(id);
    s.append("/");
    s.append(map);
    s.append(".jpg");
    s
}

/// A map that was downloaded: its name and the bytes of its file.
pub type MapBytes = (String, Vec<u8>);

/// What the downloaded maps are.
pub open spec fn done_view(done: Seq<MapBytes>) -> Seq<(Seq<char>, Seq<u8>)> {
    Seq::new(done.len(), |i: int| (done[i].0@, done[i].1@))
}

/// The import of a material.
#[derive(Debug)]
pub struct ImportJob {
    pub source: &'static str,
    pub source_id: String,
    pub name: String,
    pub category: String,
    /// Maps still to download; the last comes first.
    pub pending: Vec<MapUrl>,
    pub done: Vec<MapBytes>,
    pub total_maps: usize,
    /// A download is running.
    pub busy: bool,
    pub current_map: Option<String>,
    pub apply: bool,
    pub also_local: bool,
}

/// What an import is.
pub struct ImportView {
    pub source: Seq<char>,
    pub source_id: Seq<char>,
    pub name: Seq<char>,
    pub category: Seq<char>,
    pub pending: Seq<(Seq<char>, Seq<char>)>,
    pub done: Seq<(Seq<char>, Seq<u8>)>,
    pub total_maps: usize,
    pub busy: bool,
    pub current_map: Option<Seq<char>>,
    pub apply: bool,
    pub also_local: bool,
}

impl View for ImportJob {
    type V = ImportView;

    open spec fn view(&self) -> ImportView {
        ImportView {
            source: self.source@,
            source_id: self.source_id@,
            name: self.name@,
            category: self.category@,
            pending: maps_view(self.pending@),
            done: done_view(self.done@),
            total_maps: self.total_maps,
            busy: self.busy,
            current_map: maybe_text(self.current_map),
            apply: self.apply,
            also_local: self.also_local,
        }
    }
}

/// The place of the map among the first `n`.
pub open spec fn done_place(done: Seq<(Seq<char>, Seq<u8>)>, map: Seq<char>, n: nat) -> Option<int>
    decreases n,
{
    if n == 0 {
        None
    } else if done_place(done, map, (n - 1) as nat) is Some {
        done_place(done, map, (n - 1) as nat)
    } else if done[n - 1].0 == map {
        Some(n - 1)
    } else {
        None
    }
}

/// The downloaded maps with one more, which replaces an earlier one of its
/// name.
pub open spec fn with_done(done: Seq<(Seq<char>, Seq<u8>)>, map: Seq<char>, bytes: Seq<u8>) -> Seq<
    (Seq<char>, Seq<u8>),
> {
    match done_place(done, map, done.len()) {
        Some(i) => done.update(i, (map, bytes)),
        None => done.push((map, bytes)),
    }
}

/// The place of a downloaded map.
pub fn find_done(done: &Vec<MapBytes>, map: &str) -> (r: Option<usize>)
    ensures
        r matches Some(i) ==> done_place(done_view(done@), map@, done@.len()) == Some(i as int) && i
            < done@.len() && done@[i as int].0@ == map@,
        r is None ==> done_place(done_view(done@), map@, done@.len()) is None,
{
    let ghost all = done_view(done@);
    let mut found: Option<usize> = None;
    let mut n: usize = 0;
    while n < done.len()
        invariant
            n <= done@.len(),
            all == done_view(done@),
            found matches Some(i) ==> done_place(all, map@, n as nat) == Some(i as int) && i < n
                && done@[i as int].0@ == map@,
            found is None ==> done_place(all, map@, n as nat) is None,
        decreases done@.len() - n,
    {
        assert(all[n as int] == (done@[n as int].0@, done@[n as int].1@));
        if found.is_none() && same(done[n].0.as_str(), map) {
            found = Some(n);
        }
        n += 1;
    }
    found
}

fn add_done(done: &mut Vec<MapBytes>, map: String, bytes: Vec<u8>)
    ensures
        done_view(final(done)@) == with_done(done_view(old(done)@), map@, bytes@),
{
    let ghost before = done_view(done@);
    let ghost entry = (map@, bytes@);
    match find_done(done, map.as_str()) {
        Some(i) => {
            done.set(i, (map, bytes));
            assert(done_view(done@) =~= before.update(i as int, entry));
        },
        None => {
            done.push((map, bytes));
            assert(done_view(done@) =~= before.push(entry));
        },
    }
}

/// What an import does next.
#[derive(Debug)]
pub enum ImportStep {
    /// Download this.
    Fetch { url: String },
    /// Everything is downloaded.
    Complete,
    Wait,
    /// A map could not be downloaded; the others still are.
    Failed { message: String },
}

/// What is said of a map that could not be downloaded.
pub open spec fn failed_message(map: Seq<char>, e: Seq<char>) -> Seq<char> {
    "map '"@ + map + "' failed: "@ + e
}

/// The map that is being downloaded.
pub open spec fn map_in_flight(j: ImportView) -> Seq<char> {
    match j.current_map {
        Some(m) => m,
        None => ""@,
    }
}

/// The outcome of a download.
pub open spec fn download_view(r: Option<Result<Vec<u8>, String>>) -> Option<
    Result<Seq<u8>, Seq<char>>,
> {
    match r {
        Some(Ok(bytes)) => Some(Ok(bytes@)),
        Some(Err(e)) => Some(Err(e@)),
        None => None,
    }
}

/// The import after a step, given what came of the download that runs.
pub open spec fn import_after(
    j: ImportView,
    polled: Option<Result<Seq<u8>, Seq<char>>>,
) -> ImportView {
    if !j.busy {
        if j.pending.len() > 0 {
            ImportView {
                pending: j.pending.drop_last(),
                busy: true,
                current_map: Some(j.pending.last().0),
                ..j
            }
        } else {
            j
        }
    } else {
        match polled {
            Some(Ok(bytes)) => ImportView {
                busy: false,
                current_map: None,
                done: with_done(j.done, map_in_flight(j), bytes),
                ..j
            },
            Some(Err(_)) => ImportView { busy: false, current_map: None, ..j },
            None => j,
        }
    }
}

/// The step is what an import does next.
pub open spec fn is_step(
    step: ImportStep,
    j: ImportView,
    polled: Option<Result<Seq<u8>, Seq<char>>>,
) -> bool {
    if !j.busy {
        if j.pending.len() > 0 {
            step matches ImportStep::Fetch { url } && url@ == j.pending.last().1
        } else {
            step is Complete
        }
    } else {
        match polled {
            Some(Ok(_)) => step is Wait,
            Some(Err(e)) => step matches ImportStep::Failed { message } && message@
                == failed_message(map_in_flight(j), e),
            None => step is Wait,
        }
    }
}

/// Takes an import one step further.
pub fn step_import(j: &mut ImportJob, polled: Option<Result<Vec<u8>, String>>) -> (step: ImportStep)
    ensures
        final(j)@ == import_after(old(j)@, download_view(polled)),
        is_step(step, old(j)@, download_view(polled)),
{
    if !j.busy {
        let ghost before = j.pending@;
        match j.pending.pop() {
            Some((map, url)) => {
                proof {
                    assert(maps_view(j.pending@) =~= maps_view(before).drop_last());
                    assert(maps_view(before).last() == (map@, url@));
                }
                j.current_map = Some(map);
                j.busy = true;
                ImportStep::Fetch { url }
            },
            None => {
                assert(maps_view(j.pending@) =~= maps_view(before));
                ImportStep::Complete
            },
        }
    } else {
        match polled {
            None => ImportStep::Wait,
            Some(result) => {
                let map = match j.current_map.take() {
                    Some(m) => m,
                    None => "".to_owned(),
                };
                j.busy = false;
                match result {
                    Ok(bytes) => {
                        add_done(&mut j.done, map, bytes);
                        ImportStep::Wait
                    },
                    Err(e) => {
                        let mut message = join("map '", map.as_str());
                        message.append("' failed: ");
                        message.append(e.as_str());
                        ImportStep::Failed { message }
                    },
                }
            },
        }
    }
}

/// Every step of an import that is not waiting brings it nearer to its end:
/// downloads still to start count twice, the one that runs once.
pub open spec fn work_left(j: ImportView) -> nat {
    2 * j.pending.len() + if j.busy {
        1nat
    } else {
        0
    }
}

/// An import ends: every step either waits for a download, or completes it,
/// or leaves less to do.
pub proof fn law_imports_end(j: ImportView, polled: Option<Result<Seq<u8>, Seq<char>>>)
    ensures
        work_left(import_after(j, polled)) < work_left(j) || (j.busy && polled is None) || work_left(
            j,
        ) == 0,
        work_left(j) == 0 <==> !j.busy && j.pending.len() == 0,
{
}

/// The keys under which the downloaded maps are stored, in their order.
pub fn import_files(j: &ImportJob) -> (r: Vec<String>)
    ensures
        r@.len() == j.done@.len(),
        forall|i: int|
            0 <= i < r@.len() ==> (#[trigger] r@[i])@ == map_file(
                j.source@,
                j.source_id@,
                j.done@[i].0@,
            ),
{
    let mut r: Vec<String> = Vec::new();
    let mut n: usize = 0;
    while n < j.done.len()
        invariant
            n <= j.done@.len(),
            r@.len() == n,
            forall|i: int|
                0 <= i < r@.len() ==> (#[trigger] r@[i])@ == map_file(
                    j.source@,
                    j.source_id@,
                    j.done@[i].0@,
                ),
        decreases j.done@.len() - n,
    {
        r.push(file_of(j.source, j.source_id.as_str(), j.done[n].0.as_str()));
        n += 1;
    }
    r
}

/// The files of a material whose first `n` maps were stored or not.
pub open spec fn stored_textures(j: ImportView, stored: Seq<bool>, n: nat) -> TexturesView
    decreases n,
{
    if n == 0 {
        no_textures()
    } else {
        let before = stored_textures(j, stored, (n - 1) as nat);
        if stored[n - 1] {
            with_map(
                before,
                j.done[n - 1].0,
                map_file(j.source, j.source_id, j.done[n - 1].0),
            )
        } else {
            before
        }
    }
}

/// The files of a material, given which of its maps were stored.
pub fn collect_textures(j: &ImportJob, stored: &Vec<bool>) -> (r: Textures)
    requires
        stored@.len() == j.done@.len(),
    ensures
        r@ == stored_textures(j@, stored@, stored@.len()),
{
    let mut t = Textures {
        albedo: None,
        normal: None,
        roughness: None,
        metallic: None,
        occlusion: None,
    };
    let mut n: usize = 0;
    while n < stored.len()
        invariant
            n <= stored@.len(),
            stored@.len() == j.done@.len(),
            t@ == stored_textures(j@, stored@, n as nat),
        decreases stored@.len() - n,
    {
        assert(j@.done[n as int].0 == j.done@[n as int].0@);
        if stored[n] {
            let file = file_of(j.source, j.source_id.as_str(), j.done[n].0.as_str());
            set_map(&mut t, j.done[n].0.as_str(), file);
        }
        n += 1;
    }
    t
}

/// A colour, as three numbers.
#[derive(Clone, Copy, PartialEq, Eq, Structural, Debug)]
pub struct BaseColor {
    pub r: Scalar,
    pub g: Scalar,
    pub b: Scalar,
}

/// A material of the local collection.
#[derive(Debug)]
pub struct LocalPbrEntry {
    /// The source and the id there, with a colon between them.
    pub id: String,
    pub source: String,
    pub source_id: String,
    pub name: String,
    pub category: String,
    pub license: String,
    pub thumbnail: Option<String>,
    pub textures: Textures,
    pub base_color: Option<BaseColor>,
    pub roughness: Option<Scalar>,
    pub metallic: Option<Scalar>,
}

/// What an entry of the local collection says.
pub struct LocalView {
    pub id: Seq<char>,
    pub source: Seq<char>,
    pub source_id: Seq<char>,
    pub name: Seq<char>,
    pub category: Seq<char>,
    pub license: Seq<char>,
    pub thumbnail: Option<Seq<char>>,
    pub textures: TexturesView,
    pub base_color: Option<BaseColor>,
    pub roughness: Option<Scalar>,
    pub metallic: Option<Scalar>,
}

impl View for LocalPbrEntry {
    type V = LocalView;

    open spec fn view(&self) -> LocalView {
        LocalView {
            id: self.id@,
            source: self.source@,
            source_id: self.source_id@,
            name: self.name@,
            category: self.category@,
            license: self.license@,
            thumbnail: maybe_text(self.thumbnail),
            textures: self.textures@,
            base_color: self.base_color,
            roughness: self.roughness,
            metallic: self.metallic,
        }
    }
}

/// The metalness of a material: full where it has a map of it, else none.
pub open spec fn metalness(t: TexturesView) -> Scalar {
    Scalar {
        bits: if t.metallic is Some {
            ONE_BITS
        } else {
            0
        },
    }
}

/// The entry that an import adds to the local collection.
pub open spec fn local_entry(
    j: ImportView,
    t: TexturesView,
    base_color: Option<BaseColor>,
) -> LocalView {
    LocalView {
        id: j.source + ":"@ + j.source_id,
        source: j.source,
        source_id: j.source_id,
        name: j.name,
        category: j.category,
        license: "CC0"@,
        thumbnail: t.albedo,
        textures: t,
        base_color,
        roughness: Some(Scalar { bits: HALF_BITS }),
        metallic: Some(metalness(t)),
    }
}

fn copy_text(s: &Option<String>) -> (r: Option<String>)
    ensures
        maybe_text(r) == maybe_text(*s),
{
    match s {
        Some(s) => Some(s.as_str().to_owned()),
        None => None,
    }
}

/// A copy of the files of a material.
pub fn copy_textures(t: &Textures) -> (r: Textures)
    ensures
        r@ == t@,
{
    Textures {
        albedo: copy_text(&t.albedo),
        normal: copy_text(&t.normal),
        roughness: copy_text(&t.roughness),
        metallic: copy_text(&t.metallic),
        occlusion: copy_text(&t.occlusion),
    }
}

/// The entry that an import adds to the local collection.
pub fn make_local_entry(j: &ImportJob, t: &Textures, base_color: Option<BaseColor>) -> (r:
    LocalPbrEntry)
    ensures
        r@ == local_entry(j@, t@, base_color),
{
    let mut id = join(j.source, ":");
    id.append(j.source_id.as_str());
    let metallic = Scalar {
        bits: if t.metallic.is_some() {
            ONE_BITS
        } else {
            0
        },
    };
    LocalPbrEntry {
        id,
        source: j.source.to_owned(),
        source_id: j.source_id.as_str().to_owned(),
        name: j.name.as_str().to_owned(),
        category: j.category.as_str().to_owned(),
        license: "CC0".to_owned(),
        thumbnail: copy_text(&t.albedo),
        textures: copy_textures(t),
        base_color,
        roughness: Some(Scalar { bits: HALF_BITS }),
        metallic: Some(metallic),
    }
}

/// What the entries of a collection say.
pub open spec fn locals_view(entries: Seq<LocalPbrEntry>) -> Seq<LocalView> {
    Seq::new(entries.len(), |i: int| entries[i]@)
}

/// The first `n` entries without those of an id.
pub open spec fn without_id(entries: Seq<LocalView>, id: Seq<char>, n: nat) -> Seq<LocalView>
    decreases n,
{
    if n == 0 {
        seq![]
    } else if entries[n - 1].id == id {
        without_id(entries, id, (n - 1) as nat)
    } else {
        without_id(entries, id, (n - 1) as nat).push(entries[n - 1])
    }
}

/// Takes the entries of an id out of a collection.
pub fn remove_local(entries: Vec<LocalPbrEntry>, id: &str) -> (r: Vec<LocalPbrEntry>)
    ensures
        locals_view(r@) == without_id(locals_view(entries@), id@, entries@.len()),
{
    let ghost all = entries@;
    let mut r: Vec<LocalPbrEntry> = Vec::new();
    assert(locals_view(r@) =~= seq![]);
    for e in it: entries.into_iter()
        invariant
            it.seq() == all,
            locals_view(r@) == without_id(locals_view(all), id@, it.index() as nat),
    {
        assert(locals_view(all)[it.index() as int] == e@);
        if !same(e.id.as_str(), id) {
            let ghost before = r@;
            let ghost said = e@;
            r.push(e);
            assert(locals_view(r@) =~= locals_view(before).push(said));
        }
    }
    r
}

/// A collection with one more entry, which comes first and replaces any of
/// its id.
pub open spec fn with_local(entries: Seq<LocalView>, e: LocalView) -> Seq<LocalView> {
    seq![e] + without_id(entries, e.id, entries.len())
}

/// Adds an entry to a collection.
pub fn add_local(entries: Vec<LocalPbrEntry>, e: LocalPbrEntry) -> (r: Vec<LocalPbrEntry>)
    ensures
        locals_view(r@) == with_local(locals_view(entries@), e@),
{
    let mut r = remove_local(entries, e.id.as_str());
    let ghost before = locals_view(r@);
    let ghost said = e@;
    r.insert(0, e);
    assert(locals_view(r@) =~= seq![said] + before);
    r
}

/// An import leaves one entry of its id in the collection, the first, and
/// every other as it was.
pub proof fn law_imported_material_is_listed_once(entries: Seq<LocalView>, e: LocalView, n: nat)
    requires
        n <= entries.len(),
    ensures
        with_local(entries, e)[0] == e,
        forall|i: int|
            0 <= i < without_id(entries, e.id, n).len() ==> (#[trigger] without_id(
                entries,
                e.id,
                n,
            )[i]).id != e.id,
        forall|i: int|
            0 <= i < n && (#[trigger] entries[i]).id != e.id ==> without_id(
                entries,
                e.id,
                n,
            ).contains(entries[i]),
    decreases n,
{
    if n > 0 {
        let m = (n - 1) as nat;
        law_imported_material_is_listed_once(entries, e, m);
        let before = without_id(entries, e.id, m);
        let now = without_id(entries, e.id, n);
        assert forall|i: int| 0 <= i < n && (#[trigger] entries[i]).id != e.id implies now.contains(
            entries[i],
        ) by {
            if i < m {
                let k = choose|k: int| 0 <= k < before.len() && before[k] == entries[i];
                assert(now[k] == entries[i]);
            } else {
                assert(now[now.len() - 1] == entries[i]);
            }
        }
    }
}

/// How far an import is.
#[derive(Debug)]
pub struct Progress {
    /// Maps that were downloaded.
    pub completed: usize,
    pub total: usize,
    /// A map is being downloaded.
    pub in_flight: bool,
    /// The list of files is still being looked up.
    pub resolving: bool,
    pub label: String,
}

/// The number of the first `n` maps to download that are maps, not the list
/// of files.
pub open spec fn real_pending(pending: Seq<(Seq<char>, Seq<char>)>, n: nat) -> nat
    decreases n,
{
    if n == 0 {
        0
    } else {
        real_pending(pending, (n - 1) as nat) + if pending[n - 1].0 == "__files__"@ {
            0nat
        } else {
            1
        }
    }
}

/// The number of the first `n` downloaded maps that are maps.
pub open spec fn real_done(done: Seq<(Seq<char>, Seq<u8>)>, n: nat) -> nat
    decreases n,
{
    if n == 0 {
        0
    } else {
        real_done(done, (n - 1) as nat) + if done[n - 1].0 == "__files__"@ {
            0nat
        } else {
            1
        }
    }
}

/// The list of files is still being looked up.
pub open spec fn is_resolving(j: ImportView) -> bool {
    real_pending(j.pending, j.pending.len()) < j.pending.len() || j.current_map == Some(
        "__files__"@,
    )
}

/// A map is being downloaded.
pub open spec fn is_in_flight(j: ImportView) -> bool {
    j.busy && (j.current_map matches Some(m) && m != "__files__"@)
}

/// The larger of two numbers.
pub open spec fn most(a: nat, b: nat) -> nat {
    if a < b {
        b
    } else {
        a
    }
}

/// How many maps an import has in all.
pub open spec fn total_of(j: ImportView) -> nat {
    if is_resolving(j) {
        most(j.total_maps as nat, 1)
    } else {
        most(
            most(
                j.total_maps as nat,
                real_done(j.done, j.done.len()) + real_pending(j.pending, j.pending.len()) + if is_in_flight(
                    j,
                ) {
                    1nat
                } else {
                    0
                },
            ),
            1,
        )
    }
}

/// What is said of the map that is being downloaded.
pub open spec fn progress_label(j: ImportView) -> Seq<char> {
    match j.current_map {
        Some(m) => if m == "__files__"@ {
            "index…"@
        } else {
            m
        },
        None => if is_resolving(j) {
            "index…"@
        } else {
            "maps…"@
        },
    }
}

/// How far an import is.
pub fn progress_of(j: &ImportJob) -> (r: Progress)
    requires
        j.done@.len() + j.pending@.len() < usize::MAX,
    ensures
        r.completed == real_done(j@.done, j@.done.len()),
        r.total == total_of(j@),
        r.in_flight == is_in_flight(j@),
        r.resolving == is_resolving(j@),
        r.label@ == progress_label(j@),
{
    let ghost all = j@;
    let mut remaining: usize = 0;
    let mut n: usize = 0;
    while n < j.pending.len()
        invariant
            n <= j.pending@.len(),
            all == j@,
            remaining <= n,
            remaining == real_pending(all.pending, n as nat),
        decreases j.pending@.len() - n,
    {
        assert(all.pending[n as int].0 == j.pending@[n as int].0@);
        if !same(j.pending[n].0.as_str(), "__files__") {
            remaining = remaining + 1;
        }
        n += 1;
    }
    let listed: bool = remaining < j.pending.len();
    let mut completed: usize = 0;
    let mut k: usize = 0;
    while k < j.done.len()
        invariant
            k <= j.done@.len(),
            all == j@,
            completed <= k,
            completed == real_done(all.done, k as nat),
        decreases j.done@.len() - k,
    {
        assert(all.done[k as int].0 == j.done@[k as int].0@);
        if !same(j.done[k].0.as_str(), "__files__") {
            completed = completed + 1;
        }
        k += 1;
    }
    let (named, indexing) = match &j.current_map {
        Some(m) => (true, same(m.as_str(), "__files__")),
        None => (false, false),
    };
    let resolving = listed || indexing;
    let in_flight = j.busy && named && !indexing;
    let least: usize = if j.total_maps < 1 {
        1
    } else {
        j.total_maps
    };
    let total: usize = if resolving {
        least
    } else {
        let known: usize = completed + remaining + if in_flight {
            1
        } else {
            0
        };
        if known > least {
            known
        } else {
            least
        }
    };
    let label = match &j.current_map {
        Some(m) => if indexing {
            "index…".to_owned()
        } else {
            m.as_str().to_owned()
        },
        None => if resolving {
            "index…".to_owned()
        } else {
            "maps…".to_owned()
        },
    };
    Progress { completed, total, in_flight, resolving, label }
}

/// A file goes to the map it is of, and leaves the others.
pub proof fn law_files_go_to_their_map(t: TexturesView, file: Seq<char>)
    ensures
        with_map(t, "albedo"@, file) == (TexturesView { albedo: Some(file), ..t }),
        with_map(t, "normal"@, file) == (TexturesView { normal: Some(file), ..t }),
        with_map(t, "roughness"@, file) == (TexturesView { roughness: Some(file), ..t }),
        with_map(t, "metallic"@, file) == (TexturesView { metallic: Some(file), ..t }),
        with_map(t, "occlusion"@, file) == (TexturesView { occlusion: Some(file), ..t }),
        with_map(t, "__files__"@, file) == t,
{
    reveal_strlit("albedo");
    reveal_strlit("normal");
    reveal_strlit("roughness");
    reveal_strlit("metallic");
    reveal_strlit("occlusion");
    reveal_strlit("__files__");
    assert("albedo"@[0] == 'a' && "normal"@[0] == 'n' && "roughness"@[0] == 'r');
    assert("metallic"@[0] == 'm' && "occlusion"@[0] == 'o' && "__files__"@[0] == '_');
}

/// A map that could not be stored is left out; the last one that was stored
/// is where its file is.
pub proof fn law_stored_maps_are_used(j: ImportView, stored: Seq<bool>, n: nat)
    requires
        0 < n <= stored.len(),
    ensures
        !stored[n - 1] ==> stored_textures(j, stored, n) == stored_textures(
            j,
            stored,
            (n - 1) as nat,
        ),
        stored[n - 1] && j.done[n - 1].0 == "albedo"@ ==> stored_textures(j, stored, n).albedo
            == Some(map_file(j.source, j.source_id, "albedo"@)),
        stored_textures(j, stored, 0).albedo is None && stored_textures(j, stored, 0).metallic
            is None,
{
}

proof fn lemma_done_place(done: Seq<(Seq<char>, Seq<u8>)>, map: Seq<char>, n: nat)
    requires
        n <= done.len(),
    ensures
        done_place(done, map, n) matches Some(i) ==> 0 <= i < n && done[i].0 == map,
        done_place(done, map, n) is None ==> forall|i: int|
            0 <= i < n ==> (#[trigger] done[i]).0 != map,
    decreases n,
{
    if n > 0 {
        lemma_done_place(done, map, (n - 1) as nat);
    }
}

/// A map that arrives is kept, in place of an earlier one of its name, and
/// the others stay as they are.
pub proof fn law_arrived_maps_are_kept(
    done: Seq<(Seq<char>, Seq<u8>)>,
    map: Seq<char>,
    bytes: Seq<u8>,
    i: int,
)
    requires
        0 <= i < done.len(),
    ensures
        with_done(done, map, bytes).contains((map, bytes)),
        done[i].0 != map ==> with_done(done, map, bytes)[i] == done[i],
        done.len() <= with_done(done, map, bytes).len() <= done.len() + 1,
        done[i].0 == map ==> with_done(done, map, bytes).len() == done.len(),
{
    lemma_done_place(done, map, done.len());
    let now = with_done(done, map, bytes);
    if let Some(k) = done_place(done, map, done.len()) {
        assert(now[k] == (map, bytes));
    } else {
        assert(now[done.len() as int] == (map, bytes));
    }
}

/// One map is downloaded at a time, under its own name: the one that waited
/// last. What was downloaded stays, whatever fails later.
pub proof fn law_one_map_at_a_time(j: ImportView, polled: Option<Result<Seq<u8>, Seq<char>>>)
    ensures
        ({
            let k = import_after(j, polled);
            &&& !j.busy && j.pending.len() > 0 ==> k.busy && k.current_map == Some(
                j.pending.last().0,
            ) && k.pending.len() + 1 == j.pending.len() && k.done == j.done
            &&& j.busy ==> k.pending == j.pending
            &&& j.busy && polled is None ==> k == j
            &&& j.busy && polled is Some ==> !k.busy && k.current_map is None
            &&& j.busy && polled is Some && polled->0 is Err ==> k.done == j.done
            &&& j.busy && j.current_map is Some && polled is Some && polled->0 is Ok
                ==> k.done.contains((j.current_map->0, polled->0->Ok_0))
            &&& k.source == j.source && k.source_id == j.source_id && k.name == j.name
            &&& k.apply == j.apply && k.also_local == j.also_local
        }),
{
    if j.busy && j.current_map is Some && polled is Some && polled->0 is Ok {
        let map = j.current_map->0;
        let bytes = polled->0->Ok_0;
        lemma_done_place(j.done, map, j.done.len());
        let now = with_done(j.done, map, bytes);
        if let Some(k) = done_place(j.done, map, j.done.len()) {
            assert(now[k] == (map, bytes));
        } else {
            assert(now[j.done.len() as int] == (map, bytes));
        }
    }
}

/// The first name under which a map is published is taken.
pub proof fn law_first_published_name_is_taken(v: JsonView)
    ensures
        poly_url(v, "Diffuse"@) matches Some(u) ==> poly_maps(v).contains(("albedo"@, u)),
        poly_url(v, "Diffuse"@) is None && poly_url(v, "diff"@) is Some ==> poly_maps(v).contains(
            ("albedo"@, poly_url(v, "diff"@)->0),
        ),
        poly_url(v, "nor_gl"@) matches Some(u) ==> poly_maps(v).contains(("normal"@, u)),
        poly_url(v, "Rough"@) matches Some(u) ==> poly_maps(v).contains(("roughness"@, u)),
        poly_url(v, "AO"@) matches Some(u) ==> poly_maps(v).contains(("occlusion"@, u)),
        poly_url(v, "Metal"@) matches Some(u) ==> poly_maps(v).contains(("metallic"@, u)),
        poly_url(v, "Rough"@) is None && poly_url(v, "arm"@) is Some ==> ({
            let u = poly_url(v, "arm"@)->0;
            &&& poly_maps(v).contains(("roughness"@, u))
            &&& poly_maps(v).contains(("occlusion"@, u))
            &&& poly_maps(v).contains(("metallic"@, u))
        }),
{
    let a = maybe_map(
        "albedo"@,
        first_of(poly_url(v, "Diffuse"@), first_of(poly_url(v, "diff"@), poly_url(v, "Color"@))),
    );
    let n = maybe_map(
        "normal"@,
        first_of(poly_url(v, "nor_gl"@), first_of(poly_url(v, "Nor"@), poly_url(v, "normal"@))),
    );
    let r = maybe_map("roughness"@, poly_url(v, "Rough"@));
    let o = maybe_map("occlusion"@, poly_url(v, "AO"@));
    let m = maybe_map("metallic"@, first_of(poly_url(v, "Metal"@), poly_url(v, "metal"@)));
    let all = poly_maps(v);
    let an = (a.len() + n.len()) as int;
    if a.len() > 0 {
        assert(all[0] == a[0]);
    }
    if n.len() > 0 {
        assert(all[a.len() as int] == n[0]);
    }
    if r.len() > 0 {
        assert(all[an] == r[0]);
    }
    if o.len() > 0 {
        assert(all[an + r.len()] == o[0]);
    }
    if m.len() > 0 {
        assert(all[an + r.len() + o.len()] == m[0]);
    }
    if poly_url(v, "Rough"@) is None && poly_url(v, "arm"@) is Some {
        let at = an + r.len() + o.len() + m.len();
        let u = poly_url(v, "arm"@)->0;
        assert(all[at] == ("roughness"@, u));
        assert(all[at + 1] == ("occlusion"@, u));
        assert(all[at + 2] == ("metallic"@, u));
    }
}

/// A material is metal where it has a picture of its metal, and keeps the
/// name, category and place it was imported from.
pub proof fn law_local_entries_name_their_source(
    j: ImportView,
    t: TexturesView,
    color: Option<BaseColor>,
)
    ensures
        ({
            let e = local_entry(j, t, color);
            &&& e.name == j.name && e.category == j.category
            &&& e.source == j.source && e.source_id == j.source_id
            &&& e.id == j.source + ":"@ + j.source_id
            &&& e.textures == t && e.thumbnail == t.albedo
            &&& t.metallic is Some ==> e.metallic == Some(Scalar { bits: ONE_BITS })
            &&& t.metallic is None ==> e.metallic == Some(Scalar { bits: 0 })
        }),
{
}

proof fn lemma_real_counts(j: ImportView, a: nat, b: nat)
    requires
        a <= j.pending.len(),
        b <= j.done.len(),
    ensures
        real_pending(j.pending, a) <= a,
        real_done(j.done, b) <= b,
        real_pending(j.pending, a) == a <==> forall|i: int|
            0 <= i < a ==> (#[trigger] j.pending[i]).0 != "__files__"@,
    decreases a + b,
{
    if a > 0 {
        lemma_real_counts(j, (a - 1) as nat, b);
    }
    if b > 0 {
        lemma_real_counts(j, a, (b - 1) as nat);
    }
}

/// Progress is a part of a whole: no more maps are done than there are, and
/// there is always one at least. The list of files counts as none.
pub proof fn law_progress_is_within_the_total(j: ImportView)
    ensures
        total_of(j) >= 1,
        !is_resolving(j) ==> real_done(j.done, j.done.len()) + real_pending(
            j.pending,
            j.pending.len(),
        ) <= total_of(j),
        is_resolving(j) <==> j.current_map == Some("__files__"@) || exists|i: int|
            0 <= i < j.pending.len() && (#[trigger] j.pending[i]).0 == "__files__"@,
        is_in_flight(j) ==> j.busy && j.current_map is Some && j.current_map->0 != "__files__"@,
{
    lemma_real_counts(j, j.pending.len(), j.done.len());
}

} // verus!
