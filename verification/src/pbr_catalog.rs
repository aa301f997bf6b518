//! The catalogs of free PBR materials: where they come from, what is read
//! out of them, how they are sorted and searched.

use vstd::prelude::*;
use crate::json::{
    field, list_field, list_view, parse_json, parsed_json, record_view, strings_view, text_field,
    text_of, texts, texts_in, Json, JsonView,
};
use crate::text::{chars_of, contains, join, lowercased, occurs, same, string_of, to_lowercase};

verus! {

/// No more materials of Poly Haven than this are listed.
pub const CATALOG_LIMIT: usize = 120;

/// A free source of PBR materials.
#[derive(Clone, Copy, Debug)]
pub struct PbrSourceInfo {
    pub name: &'static str,
    pub url: &'static str,
    pub license: &'static str,
    pub notes: &'static str,
    /// It can be browsed from here.
    pub integrated: bool,
}

/// The known sources, those that can be browsed first.
pub fn pbr_sources() -> (r: Vec<PbrSourceInfo>)
    ensures
        r@.len() == 6,
        r@[0].name@ == "ambientCG"@ && r@[0].integrated,
        r@[1].name@ == "Poly Haven"@ && r@[1].integrated,
        r@[2].name@ == "CG Bookcase"@ && !r@[2].integrated,
        r@[3].name@ == "Share Textures"@ && !r@[3].integrated,
        r@[4].name@ == "3D Textures"@ && !r@[4].integrated,
        r@[5].name@ == "FreePBR"@ && !r@[5].integrated,
        r@[0].url@ == "https://ambientcg.com"@,
        r@[1].url@ == "https://polyhaven.com/textures"@,
        r@[2].url@ == "https://www.cgbookcase.com"@,
        r@[3].url@ == "https://www.sharetextures.com"@,
        r@[4].url@ == "https://3dtextures.me"@,
        r@[5].url@ == "https://freepbr.com"@,
        r@[0].license@ == "CC0 1.0"@,
        r@[1].license@ == "CC0 (assets)"@,
        r@[2].license@ == "Free / no restrictions"@,
        r@[3].license@ == "Free for commercial use"@,
        r@[4].license@ == "Free"@,
        r@[5].license@ == "Free (check per-asset)"@,
        r@[0].notes@
            == "1,000+ seamless PBR materials up to 8K. Fully integrated — browse & apply."@,
        r@[1].notes@
            == "Photoscanned textures ≥8K. Fully integrated — browse & apply (1K maps)."@,
        r@[2].notes@ == "Hundreds of free tileable PBR materials. Open in browser."@,
        r@[3].notes@ == "1,700+ free textures & models. Open in browser."@,
        r@[4].notes@ == "Seamless PBR materials with map previews. Open in browser."@,
        r@[5].notes@ == "Classic free PBR packs. Open in browser."@,
{
    let mut r: Vec<PbrSourceInfo> = Vec::new();
    r.push(
        PbrSourceInfo {
            name: "ambientCG",
            url: "https://ambientcg.com",
            license: "CC0 1.0",
            notes: "1,000+ seamless PBR materials up to 8K. Fully integrated — browse & apply.",
            integrated: true,
        },
    );
    r.push(
        PbrSourceInfo {
            name: "Poly Haven",
            url: "https://polyhaven.com/textures",
            license: "CC0 (assets)",
            notes: "Photoscanned textures ≥8K. Fully integrated — browse & apply (1K maps).",
            integrated: true,
        },
    );
    r.push(
        PbrSourceInfo {
            name: "CG Bookcase",
            url: "https://www.cgbookcase.com",
            license: "Free / no restrictions",
            notes: "Hundreds of free tileable PBR materials. Open in browser.",
            integrated: false,
        },
    );
    r.push(
        PbrSourceInfo {
            name: "Share Textures",
            url: "https://www.sharetextures.com",
            license: "Free for commercial use",
            notes: "1,700+ free textures & models. Open in browser.",
            integrated: false,
        },
    );
    r.push(
        PbrSourceInfo {
            name: "3D Textures",
            url: "https://3dtextures.me",
            license: "Free",
            notes: "Seamless PBR materials with map previews. Open in browser.",
            integrated: false,
        },
    );
    r.push(
        PbrSourceInfo {
            name: "FreePBR",
            url: "https://freepbr.com",
            license: "Free (check per-asset)",
            notes: "Classic free PBR packs. Open in browser.",
            integrated: false,
        },
    );
    r
}

/// A material that a catalog lists.
#[derive(Debug)]
pub struct RemotePbrEntry {
    /// `ambientcg` or `polyhaven`.
    pub source: &'static str,
    pub source_id: String,
    pub name: String,
    pub category: String,
    pub thumbnail_url: String,
    pub tags: Vec<String>,
}

/// What an entry says.
pub struct RemoteView {
    pub source: Seq<char>,
    pub source_id: Seq<char>,
    pub name: Seq<char>,
    pub category: Seq<char>,
    pub thumbnail_url: Seq<char>,
    pub tags: Seq<Seq<char>>,
}

impl View for RemotePbrEntry {
    type V = RemoteView;

    open spec fn view(&self) -> RemoteView {
        RemoteView {
            source: self.source@,
            source_id: self.source_id@,
            name: self.name@,
            category: self.category@,
            thumbnail_url: self.thumbnail_url@,
            tags: strings_view(self.tags@),
        }
    }
}

/// What the entries say.
pub open spec fn entries_view(entries: Seq<RemotePbrEntry>) -> Seq<RemoteView> {
    Seq::new(entries.len(), |i: int| entries[i]@)
}

/// The text, or another where there is none.
pub open spec fn text_or(text: Option<Seq<char>>, other: Seq<char>) -> Seq<char> {
    match text {
        Some(s) => s,
        None => other,
    }
}

fn owned_or(text: Option<&str>, other: &str) -> (r: String)
    ensures
        r@ == text_or(
            match text {
                Some(s) => Some(s@),
                None => None,
            },
            other@,
        ),
{
    match text {
        Some(s) => s.to_owned(),
        None => other.to_owned(),
    }
}

/// The texts in a list field; none where there is no list.
pub open spec fn texts_at(v: JsonView, key: Seq<char>) -> Seq<Seq<char>> {
    match list_field(v, key) {
        Some(items) => texts_in(items, items.len()),
        None => seq![],
    }
}

fn read_texts(v: &Json, key: &str) -> (r: Vec<String>)
    ensures
        strings_view(r@) == texts_at(v@, key@),
{
    match v.list_at(key) {
        Some(items) => texts(items),
        None => {
            let r: Vec<String> = Vec::new();
            assert(strings_view(r@) =~= seq![]);
            r
        },
    }
}

/// The picture of an ambientCG material: a JPEG, or else a PNG.
pub open spec fn ambient_thumb(a: JsonView) -> Seq<char> {
    match field(a, "previewImage"@) {
        Some(p) => {
            let picture = match field(p, "256-JPG-FFFFFF"@) {
                Some(x) => Some(x),
                None => field(p, "256-PNG"@),
            };
            match picture {
                Some(x) => text_or(text_of(x), ""@),
                None => ""@,
            }
        },
        None => ""@,
    }
}

/// The entry of an ambientCG asset; none where it has no id.
pub open spec fn ambient_entry(a: JsonView) -> Option<RemoteView> {
    let id = text_or(text_field(a, "assetId"@), ""@);
    if id.len() == 0 {
        None
    } else {
        Some(
            RemoteView {
                source: "ambientcg"@,
                source_id: id,
                name: text_or(text_field(a, "displayName"@), id),
                category: text_or(text_field(a, "displayCategory"@), ""@),
                thumbnail_url: ambient_thumb(a),
                tags: texts_at(a, "tags"@),
            },
        )
    }
}

/// The entries of the first `n` assets.
pub open spec fn ambient_entries(assets: Seq<JsonView>, n: nat) -> Seq<RemoteView>
    decreases n,
{
    if n == 0 {
        seq![]
    } else {
        match ambient_entry(assets[n - 1]) {
            Some(e) => ambient_entries(assets, (n - 1) as nat).push(e),
            None => ambient_entries(assets, (n - 1) as nat),
        }
    }
}

/// What an ambientCG catalog lists, or what is wrong with it.
pub open spec fn ambient_catalog(v: JsonView) -> Result<Seq<RemoteView>, Seq<char>> {
    match list_field(v, "foundAssets"@) {
        Some(assets) => Ok(ambient_entries(assets, assets.len())),
        None => Err("missing foundAssets"@),
    }
}

/// The outcome of reading a catalog, by what it says.
pub open spec fn catalog_view(r: Result<Vec<RemotePbrEntry>, String>) -> Result<
    Seq<RemoteView>,
    Seq<char>,
> {
    match r {
        Ok(entries) => Ok(entries_view(entries@)),
        Err(e) => Err(e@),
    }
}

fn read_ambient_thumb(a: &Json) -> (r: String)
    ensures
        r@ == ambient_thumb(a@),
{
    match a.get("previewImage") {
        Some(p) => {
            let picture = match p.get("256-JPG-FFFFFF") {
                Some(x) => Some(x),
                None => p.get("256-PNG"),
            };
            match picture {
                Some(x) => owned_or(x.as_str(), ""),
                None => "".to_owned(),
            }
        },
        None => "".to_owned(),
    }
}

fn read_ambient_entry(a: &Json) -> (r: Option<RemotePbrEntry>)
    ensures
        match r {
            Some(e) => ambient_entry(a@) == Some(e@),
            None => ambient_entry(a@) is None,
        },
{
    let id = owned_or(a.text_at("assetId"), "");
    if id.as_str().is_empty() {
        return None;
    }
    let name = owned_or(a.text_at("displayName"), id.as_str());
    let category = owned_or(a.text_at("displayCategory"), "");
    let thumbnail_url = read_ambient_thumb(a);
    let tags = read_texts(a, "tags");
    Some(
        RemotePbrEntry { source: "ambientcg", source_id: id, name, category, thumbnail_url, tags },
    )
}

/// The materials that an ambientCG catalog lists.
pub fn read_ambient_catalog(v: &Json) -> (r: Result<Vec<RemotePbrEntry>, String>)
    ensures
        catalog_view(r) == ambient_catalog(v@),
{
    match v.list_at("foundAssets") {
        None => Err("missing foundAssets".to_owned()),
        Some(assets) => {
            let ghost all = list_view(assets@);
            let mut r: Vec<RemotePbrEntry> = Vec::new();
            let mut n: usize = 0;
            assert(entries_view(r@) =~= seq![]);
            while n < assets.len()
                invariant
                    n <= assets@.len(),
                    all == list_view(assets@),
                    entries_view(r@) == ambient_entries(all, n as nat),
                decreases assets@.len() - n,
            {
                assert(all[n as int] == assets@[n as int]@);
                let ghost before = r@;
                match read_ambient_entry(&assets[n]) {
                    Some(e) => {
                        let ghost said = e@;
                        r.push(e);
                        assert(entries_view(r@) =~= entries_view(before).push(said));
                    },
                    None => {},
                }
                n += 1;
            }
            Ok(r)
        },
    }
}

/// What a catalog text lists: nothing where it cannot be parsed.
pub open spec fn catalog_of(
    parsed: Result<JsonView, Seq<char>>,
    read: Result<Seq<RemoteView>, Seq<char>>,
) -> Result<Seq<RemoteView>, Seq<char>> {
    match parsed {
        Ok(_) => read,
        Err(e) => Err("json: "@ + e),
    }
}

/// The materials that the text of an ambientCG catalog lists.
pub fn parse_ambientcg_catalog(body: &str) -> (r: Result<Vec<RemotePbrEntry>, String>)
    ensures
        catalog_view(r) == catalog_of(
            parsed_json(body@),
            ambient_catalog(parsed_json(body@)->Ok_0),
        ),
{
    match parse_json(body) {
        Ok(v) => read_ambient_catalog(&v),
        Err(e) => Err(join("json: ", e.as_str())),
    }
}

/// The first text, or an empty one.
pub open spec fn first_or_empty(list: Seq<Seq<char>>) -> Seq<char> {
    if list.len() > 0 {
        list[0]
    } else {
        ""@
    }
}

/// The entry of a Poly Haven asset.
pub open spec fn poly_entry(id: Seq<char>, a: JsonView) -> RemoteView {
    let categories = texts_at(a, "categories"@);
    RemoteView {
        source: "polyhaven"@,
        source_id: id,
        name: text_or(text_field(a, "name"@), id),
        category: first_or_empty(categories),
        thumbnail_url: text_or(
            text_field(a, "thumbnail_url"@),
            "https://cdn.polyhaven.com/asset_img/thumbs/"@ + id + ".png?width=256&height=256"@,
        ),
        tags: match list_field(a, "tags"@) {
            Some(items) => texts_in(items, items.len()),
            None => categories,
        },
    }
}

/// The first text is before the second: character by character, a text
/// before its continuations.
pub open spec fn text_less(a: Seq<char>, b: Seq<char>) -> bool
    decreases a.len(),
{
    if b.len() == 0 {
        false
    } else if a.len() == 0 {
        true
    } else {
        a[0] < b[0] || (a[0] == b[0] && text_less(a.skip(1), b.skip(1)))
    }
}

fn is_before(a: &str, b: &str) -> (r: bool)
    ensures
        r == text_less(a@, b@),
{
    let x = chars_of(a);
    let y = chars_of(b);
    let mut i: usize = 0;
    assert(a@.skip(0) =~= a@ && b@.skip(0) =~= b@);
    while i < x.len() && i < y.len()
        invariant
            x@ == a@,
            y@ == b@,
            i <= x@.len(),
            i <= y@.len(),
            text_less(a@, b@) == text_less(a@.skip(i as int), b@.skip(i as int)),
        decreases x@.len() - i,
    {
        assert(a@.skip(i as int)[0] == a@[i as int]);
        assert(b@.skip(i as int)[0] == b@[i as int]);
        if x[i] < y[i] {
            return true;
        }
        if x[i] != y[i] {
            return false;
        }
        assert(a@.skip(i as int).skip(1) =~= a@.skip(i + 1));
        assert(b@.skip(i as int).skip(1) =~= b@.skip(i + 1));
        i += 1;
    }
    i < y.len()
}

/// By what an entry is sorted.
pub open spec fn sort_key(e: RemoteView) -> Seq<char> {
    lowercased(e.name)
}

/// The first place from `i` on whose entry is after `key`.
pub open spec fn place_after(sorted: Seq<RemoteView>, key: Seq<char>, i: nat) -> nat
    decreases sorted.len() - i,
{
    if i >= sorted.len() {
        sorted.len()
    } else if text_less(key, sort_key(sorted[i as int])) {
        i
    } else {
        place_after(sorted, key, i + 1)
    }
}

/// The first `n` entries by name, whatever the case of its letters; entries
/// of one name in the order they had.
pub open spec fn by_name(entries: Seq<RemoteView>, n: nat) -> Seq<RemoteView>
    decreases n,
{
    if n == 0 {
        seq![]
    } else {
        let before = by_name(entries, (n - 1) as nat);
        before.insert(
            place_after(before, sort_key(entries[n - 1]), 0) as int,
            entries[n - 1],
        )
    }
}

/// The entries of the first `n` fields.
pub open spec fn poly_entries(fields: Seq<(Seq<char>, JsonView)>, n: nat) -> Seq<RemoteView>
    decreases n,
{
    if n == 0 {
        seq![]
    } else {
        poly_entries(fields, (n - 1) as nat).push(poly_entry(fields[n - 1].0, fields[n - 1].1))
    }
}

/// The first entries, no more than the limit.
pub open spec fn limited(entries: Seq<RemoteView>) -> Seq<RemoteView> {
    if entries.len() > CATALOG_LIMIT {
        entries.take(CATALOG_LIMIT as int)
    } else {
        entries
    }
}

/// What a Poly Haven catalog lists, or what is wrong with it.
pub open spec fn poly_catalog(v: JsonView) -> Result<Seq<RemoteView>, Seq<char>> {
    match v {
        JsonView::Record(fields) => {
            let all = poly_entries(fields, fields.len());
            Ok(limited(by_name(all, all.len())))
        },
        _ => Err("expected object"@),
    }
}

fn copy_strings(list: &Vec<String>) -> (r: Vec<String>)
    ensures
        strings_view(r@) == strings_view(list@),
{
    let mut r: Vec<String> = Vec::new();
    let mut n: usize = 0;
    while n < list.len()
        invariant
            n <= list@.len(),
            r@.len() == n,
            forall|k: int| 0 <= k < n ==> (#[trigger] r@[k])@ == list@[k]@,
        decreases list@.len() - n,
    {
        r.push(list[n].as_str().to_owned());
        n += 1;
    }
    assert(strings_view(r@) =~= strings_view(list@));
    r
}

fn read_poly_entry(id: &str, a: &Json) -> (r: RemotePbrEntry)
    ensures
        r@ == poly_entry(id@, a@),
{
    let name = owned_or(a.text_at("name"), id);
    let categories = read_texts(a, "categories");
    assert(categories@.len() == strings_view(categories@).len());
    let category = if categories.len() > 0 {
        assert(strings_view(categories@)[0] == categories@[0]@);
        categories[0].as_str().to_owned()
    } else {
        "".to_owned()
    };
    let mut made = join("https://cdn.polyhaven.com/asset_img/thumbs/", id);
    made.append(".png?width=256&height=256");
    let thumbnail_url = owned_or(a.text_at("thumbnail_url"), made.as_str());
    let tags = match a.list_at("tags") {
        Some(items) => texts(items),
        None => copy_strings(&categories),
    };
    RemotePbrEntry {
        source: "polyhaven",
        source_id: id.to_owned(),
        name,
        category,
        thumbnail_url,
        tags,
    }
}

/// The keys of sorted entries.
spec fn keys_match(keys: Seq<String>, entries: Seq<RemotePbrEntry>) -> bool {
    &&& keys.len() == entries.len()
    &&& forall|i: int|
        0 <= i < keys.len() ==> (#[trigger] keys[i])@ == sort_key(entries_view(entries)[i])
}

/// Puts an entry where it belongs.
fn insert_by_name(
    sorted: &mut Vec<RemotePbrEntry>,
    keys: &mut Vec<String>,
    e: RemotePbrEntry,
)
    requires
        keys_match(old(keys)@, old(sorted)@),
    ensures
        keys_match(final(keys)@, final(sorted)@),
        entries_view(final(sorted)@) == entries_view(old(sorted)@).insert(
            place_after(entries_view(old(sorted)@), sort_key(e@), 0) as int,
            e@,
        ),
{
    let key = to_lowercase(e.name.as_str());
    let ghost views = entries_view(sorted@);
    let mut at: usize = 0;
    while at < keys.len() && !is_before(key.as_str(), keys[at].as_str())
        invariant
            at <= keys@.len(),
            key@ == sort_key(e@),
            keys_match(keys@, sorted@),
            views == entries_view(sorted@),
            place_after(views, key@, 0) == place_after(views, key@, at as nat),
        decreases keys@.len() - at,
    {
        assert(keys@[at as int]@ == sort_key(views[at as int]));
        at += 1;
    }
    proof {
        if at < keys@.len() {
            assert(keys@[at as int]@ == sort_key(views[at as int]));
        }
    }
    let ghost said = e@;
    let ghost before = sorted@;
    let ghost old_keys = keys@;
    sorted.insert(at, e);
    keys.insert(at, key);
    proof {
        assert(entries_view(sorted@) =~= views.insert(at as int, said));
        assert forall|i: int| 0 <= i < keys@.len() implies (#[trigger] keys@[i])@ == sort_key(
            entries_view(sorted@)[i],
        ) by {
            if i < at {
                assert(keys@[i] == old_keys[i]);
                assert(entries_view(sorted@)[i] == views[i]);
            } else if i > at {
                assert(keys@[i] == old_keys[i - 1]);
                assert(entries_view(sorted@)[i] == views[i - 1]);
            }
        }
    }
}

/// The materials that a Poly Haven catalog lists.
pub fn read_poly_catalog(v: &Json) -> (r: Result<Vec<RemotePbrEntry>, String>)
    ensures
        catalog_view(r) == poly_catalog(v@),
{
    match v.as_object() {
        None => Err("expected object".to_owned()),
        Some(fields) => {
            let ghost all = record_view(fields@);
            let ghost listed = poly_entries(all, all.len());
            let mut sorted: Vec<RemotePbrEntry> = Vec::new();
            let mut keys: Vec<String> = Vec::new();
            let mut n: usize = 0;
            assert(entries_view(sorted@) =~= seq![]);
            while n < fields.len()
                invariant
                    n <= fields@.len(),
                    all == record_view(fields@),
                    listed == poly_entries(all, all.len()),
                    keys_match(keys@, sorted@),
                    entries_view(sorted@) == by_name(listed, n as nat),
                decreases fields@.len() - n,
            {
                assert(all[n as int] == (fields@[n as int].0@, fields@[n as int].1@));
                proof {
                    lemma_poly_entries(all, all.len(), n as int);
                }
                let e = read_poly_entry(fields[n].0.as_str(), &fields[n].1);
                insert_by_name(&mut sorted, &mut keys, e);
                n += 1;
            }
            proof {
                lemma_poly_entries_len(all, all.len());
            }
            let ghost whole = entries_view(sorted@);
            if sorted.len() > CATALOG_LIMIT {
                let rest = sorted.split_off(CATALOG_LIMIT);
                assert(entries_view(sorted@) =~= whole.take(CATALOG_LIMIT as int));
            }
            Ok(sorted)
        },
    }
}

proof fn lemma_poly_entries(fields: Seq<(Seq<char>, JsonView)>, n: nat, i: int)
    requires
        n <= fields.len(),
        0 <= i < n,
    ensures
        poly_entries(fields, n).len() == n,
        poly_entries(fields, n)[i] == poly_entry(fields[i].0, fields[i].1),
    decreases n,
{
    lemma_poly_entries_len(fields, (n - 1) as nat);
    if i < n - 1 {
        lemma_poly_entries(fields, (n - 1) as nat, i);
    }
}

proof fn lemma_poly_entries_len(fields: Seq<(Seq<char>, JsonView)>, n: nat)
    requires
        n <= fields.len(),
    ensures
        poly_entries(fields, n).len() == n,
    decreases n,
{
    if n > 0 {
        lemma_poly_entries_len(fields, (n - 1) as nat);
    }
}

/// The materials that the text of a Poly Haven catalog lists.
pub fn parse_polyhaven_catalog(body: &str) -> (r: Result<Vec<RemotePbrEntry>, String>)
    ensures
        catalog_view(r) == catalog_of(
            parsed_json(body@),
            poly_catalog(parsed_json(body@)->Ok_0),
        ),
{
    match parse_json(body) {
        Ok(v) => read_poly_catalog(&v),
        Err(e) => Err(join("json: ", e.as_str())),
    }
}

/// The first place from `i` on that is not before `c`.
pub open spec fn place_for(set: Seq<Seq<char>>, c: Seq<char>, i: nat) -> nat
    decreases set.len() - i,
{
    if i >= set.len() {
        set.len()
    } else if text_less(set[i as int], c) {
        place_for(set, c, i + 1)
    } else {
        i
    }
}

/// A sorted set of texts with one more.
pub open spec fn with_text(set: Seq<Seq<char>>, c: Seq<char>) -> Seq<Seq<char>> {
    let at = place_for(set, c, 0);
    if at < set.len() && set[at as int] == c {
        set
    } else {
        set.insert(at as int, c)
    }
}

/// The texts among the first `n` that are not empty, sorted, each once.
pub open spec fn text_set(list: Seq<Seq<char>>, n: nat) -> Seq<Seq<char>>
    decreases n,
{
    if n == 0 {
        seq![]
    } else if list[n - 1].len() == 0 {
        text_set(list, (n - 1) as nat)
    } else {
        with_text(text_set(list, (n - 1) as nat), list[n - 1])
    }
}

fn add_text(set: &mut Vec<String>, c: &str)
    ensures
        strings_view(final(set)@) == with_text(strings_view(old(set)@), c@),
{
    let ghost views = strings_view(set@);
    let mut at: usize = 0;
    while at < set.len() && is_before(set[at].as_str(), c)
        invariant
            at <= set@.len(),
            views == strings_view(set@),
            place_for(views, c@, 0) == place_for(views, c@, at as nat),
        decreases set@.len() - at,
    {
        assert(views[at as int] == set@[at as int]@);
        at += 1;
    }
    if at < set.len() {
        assert(views[at as int] == set@[at as int]@);
        if same(set[at].as_str(), c) {
            return ;
        }
    }
    set.insert(at, c.to_owned());
    assert(strings_view(set@) =~= views.insert(at as int, c@));
}

/// The categories of the entries.
pub open spec fn categories_view(entries: Seq<RemotePbrEntry>) -> Seq<Seq<char>> {
    Seq::new(entries.len(), |i: int| entries[i].category@)
}

/// The categories that occur, sorted, each once.
pub fn collect_categories(entries: &Vec<RemotePbrEntry>) -> (r: Vec<String>)
    ensures
        strings_view(r@) == text_set(categories_view(entries@), entries@.len()),
{
    let mut r: Vec<String> = Vec::new();
    let ghost all = categories_view(entries@);
    let mut n: usize = 0;
    assert(strings_view(r@) =~= seq![]);
    while n < entries.len()
        invariant
            n <= entries@.len(),
            all == categories_view(entries@),
            strings_view(r@) == text_set(all, n as nat),
        decreases entries@.len() - n,
    {
        assert(all[n as int] == entries@[n as int].category@);
        if !entries[n].category.as_str().is_empty() {
            add_text(&mut r, entries[n].category.as_str());
        }
        n += 1;
    }
    r
}

/// Like [`collect_categories`], of categories alone.
pub fn collect_texts(list: &Vec<String>) -> (r: Vec<String>)
    ensures
        strings_view(r@) == text_set(strings_view(list@), list@.len()),
{
    let mut r: Vec<String> = Vec::new();
    let ghost all = strings_view(list@);
    let mut n: usize = 0;
    assert(strings_view(r@) =~= seq![]);
    while n < list.len()
        invariant
            n <= list@.len(),
            all == strings_view(list@),
            strings_view(r@) == text_set(all, n as nat),
        decreases list@.len() - n,
    {
        assert(all[n as int] == list@[n as int]@);
        if !list[n].as_str().is_empty() {
            add_text(&mut r, list[n].as_str());
        }
        n += 1;
    }
    r
}

/// An ASCII capital as a small letter; anything else as it is.
pub open spec fn ascii_lower(c: char) -> char {
    if 'A' <= c <= 'Z' {
        (c as u32 + 32) as char
    } else {
        c
    }
}

/// The two texts are equal but for the case of ASCII letters.
pub open spec fn equal_ignoring_case(a: Seq<char>, b: Seq<char>) -> bool {
    &&& a.len() == b.len()
    &&& forall|i: int|
        0 <= i < a.len() ==> ascii_lower(#[trigger] a[i]) == ascii_lower(b[i])
}

fn lower(c: char) -> (r: u32)
    ensures
        r == ascii_lower(c) as u32,
{
    if 'A' <= c && c <= 'Z' {
        c as u32 + 32
    } else {
        c as u32
    }
}

fn same_ignoring_case(a: &str, b: &str) -> (r: bool)
    ensures
        r == equal_ignoring_case(a@, b@),
{
    let x = chars_of(a);
    let y = chars_of(b);
    if x.len() != y.len() {
        return false;
    }
    let mut i: usize = 0;
    while i < x.len()
        invariant
            i <= x@.len(),
            x@.len() == y@.len(),
            x@ == a@,
            y@ == b@,
            forall|k: int| 0 <= k < i ==> ascii_lower(#[trigger] a@[k]) == ascii_lower(b@[k]),
        decreases x@.len() - i,
    {
        if lower(x[i]) != lower(y[i]) {
            assert(ascii_lower(a@[i as int]) != ascii_lower(b@[i as int]));
            return false;
        }
        assert(ascii_lower(a@[i as int]) == ascii_lower(b@[i as int]));
        i += 1;
    }
    true
}

/// Some of the texts holds the query, whatever the case of its letters.
pub open spec fn some_holds(list: Seq<Seq<char>>, query: Seq<char>, n: nat) -> bool
    decreases n,
{
    n > 0 && (some_holds(list, query, (n - 1) as nat) || occurs(
        lowercased(list[n - 1]),
        query,
    ))
}

/// The entry is listed under a category, if one is chosen, and for a query
/// in small letters, if there is one.
pub open spec fn is_listed(e: RemoteView, query: Seq<char>, category: Seq<char>) -> bool {
    &&& category.len() == 0 || equal_ignoring_case(e.category, category)
    &&& {
        ||| query.len() == 0
        ||| occurs(lowercased(e.name), query)
        ||| occurs(lowercased(e.category), query)
        ||| some_holds(e.tags, query, e.tags.len())
        ||| occurs(lowercased(e.source_id), query)
    }
}

fn any_holds(list: &Vec<String>, query: &str) -> (r: bool)
    ensures
        r == some_holds(strings_view(list@), query@, list@.len()),
{
    let ghost all = strings_view(list@);
    let mut found = false;
    let mut n: usize = 0;
    while n < list.len()
        invariant
            n <= list@.len(),
            all == strings_view(list@),
            found == some_holds(all, query@, n as nat),
        decreases list@.len() - n,
    {
        assert(all[n as int] == list@[n as int]@);
        if contains(to_lowercase(list[n].as_str()).as_str(), query) {
            found = true;
        }
        n += 1;
    }
    found
}

fn lists(e: &RemotePbrEntry, query: &str, category: &str) -> (r: bool)
    ensures
        r == is_listed(e@, query@, category@),
{
    if !category.is_empty() && !same_ignoring_case(e.category.as_str(), category) {
        return false;
    }
    query.is_empty() || contains(to_lowercase(e.name.as_str()).as_str(), query) || contains(
        to_lowercase(e.category.as_str()).as_str(),
        query,
    ) || any_holds(&e.tags, query) || contains(
        to_lowercase(e.source_id.as_str()).as_str(),
        query,
    )
}

/// The places of the listed ones among the first `n` entries.
pub open spec fn listed_places(
    entries: Seq<RemoteView>,
    query: Seq<char>,
    category: Seq<char>,
    n: nat,
) -> Seq<usize>
    decreases n,
{
    if n == 0 {
        seq![]
    } else if is_listed(entries[n - 1], query, category) {
        listed_places(entries, query, category, (n - 1) as nat).push((n - 1) as usize)
    } else {
        listed_places(entries, query, category, (n - 1) as nat)
    }
}

/// The entries to show for a search text and a chosen category, by place.
pub fn filter_entries(entries: &Vec<RemotePbrEntry>, search: &str, category: &str) -> (r: Vec<
    usize,
>)
    ensures
        r@ == listed_places(
            entries_view(entries@),
            lowercased(search@),
            category@,
            entries@.len(),
        ),
{
    let query = to_lowercase(search);
    let ghost all = entries_view(entries@);
    let mut r: Vec<usize> = Vec::new();
    let mut n: usize = 0;
    while n < entries.len()
        invariant
            n <= entries@.len(),
            all == entries_view(entries@),
            query@ == lowercased(search@),
            r@ == listed_places(all, query@, category@, n as nat),
        decreases entries@.len() - n,
    {
        assert(all[n as int] == entries@[n as int]@);
        if lists(&entries[n], query.as_str(), category) {
            r.push(n);
        }
        n += 1;
    }
    r
}

/// A label of at most `most` characters: one that is longer ends in an
/// ellipsis.
pub open spec fn shortened(s: Seq<char>, most: nat) -> Seq<char> {
    if s.len() <= most {
        s
    } else if most == 0 {
        "…"@
    } else {
        s.take(most - 1) + "…"@
    }
}

/// A label of at most `most` characters.
pub fn truncate_label(s: &str, most: usize) -> (r: String)
    ensures
        r@ == shortened(s@, most as nat),
{
    let chars = chars_of(s);
    if chars.len() <= most {
        return s.to_owned();
    }
    if most == 0 {
        return "…".to_owned();
    }
    let mut short: Vec<char> = Vec::new();
    let mut i: usize = 0;
    while i < most - 1
        invariant
            i <= most - 1,
            most <= chars@.len(),
            chars@ == s@,
            short@ == s@.take(i as int),
        decreases most - 1 - i,
    {
        short.push(chars[i]);
        i += 1;
        assert(short@ =~= s@.take(i as int));
    }
    let mut r = string_of(short.as_slice());
    r.append("…");
    r
}

/// The order of texts: of two different ones exactly one is before the
/// other, and before is transitive.
pub proof fn law_texts_are_ordered(a: Seq<char>, b: Seq<char>, c: Seq<char>)
    ensures
        !text_less(a, a),
        a == b || text_less(a, b) || text_less(b, a),
        !(text_less(a, b) && text_less(b, a)),
        text_less(a, b) && text_less(b, c) ==> text_less(a, c),
    decreases a.len() + b.len() + c.len(),
{
    if a.len() > 0 && b.len() > 0 && c.len() > 0 {
        law_texts_are_ordered(a.skip(1), b.skip(1), c.skip(1));
    } else if a.len() > 0 && b.len() > 0 {
        law_texts_are_ordered(a.skip(1), b.skip(1), c);
    } else if a.len() > 0 {
        law_texts_are_ordered(a.skip(1), b, c);
    }
    if a.len() > 0 && b.len() > 0 && a[0] == b[0] && a.skip(1) == b.skip(1) {
        assert(a =~= b) by {
            assert forall|i: int| 0 <= i < a.len() && a.len() == b.len() implies a[i] == b[i] by {
                if i > 0 {
                    assert(a[i] == a.skip(1)[i - 1]);
                    assert(b[i] == b.skip(1)[i - 1]);
                }
            }
            assert(a.len() == a.skip(1).len() + 1);
        }
    }
    if a.len() == 0 && b.len() == 0 {
        assert(a =~= b);
    }
}

/// No entry is before an earlier one.
pub open spec fn is_sorted(entries: Seq<RemoteView>) -> bool {
    forall|i: int, j: int|
        0 <= i < j < entries.len() ==> !text_less(
            sort_key(#[trigger] entries[j]),
            sort_key(#[trigger] entries[i]),
        )
}

proof fn lemma_place_after(sorted: Seq<RemoteView>, key: Seq<char>, i: nat)
    requires
        i <= sorted.len(),
        is_sorted(sorted),
    ensures
        i <= place_after(sorted, key, i) <= sorted.len(),
        forall|k: int|
            i <= k < place_after(sorted, key, i) ==> !text_less(
                key,
                sort_key(#[trigger] sorted[k]),
            ),
        forall|k: int|
            place_after(sorted, key, i) <= k < sorted.len() ==> !text_less(
                sort_key(#[trigger] sorted[k]),
                key,
            ),
    decreases sorted.len() - i,
{
    if i < sorted.len() {
        if text_less(key, sort_key(sorted[i as int])) {
            assert forall|k: int| i <= k < sorted.len() implies !text_less(
                sort_key(#[trigger] sorted[k]),
                key,
            ) by {
                law_texts_are_ordered(
                    sort_key(sorted[k]),
                    key,
                    sort_key(sorted[i as int]),
                );
                if k > i {
                    assert(!text_less(sort_key(sorted[k]), sort_key(sorted[i as int])));
                }
            }
        } else {
            lemma_place_after(sorted, key, i + 1);
        }
    }
}

/// The entries of a Poly Haven catalog are sorted by name.
pub proof fn law_catalog_is_sorted(entries: Seq<RemoteView>, n: nat)
    requires
        n <= entries.len(),
    ensures
        is_sorted(by_name(entries, n)),
        is_sorted(limited(by_name(entries, n))),
        by_name(entries, n).len() == n,
        by_name(entries, n).to_multiset() == entries.take(n as int).to_multiset(),
    decreases n,
{
    broadcast use vstd::seq_lib::group_to_multiset_ensures;

    if n > 0 {
        law_catalog_is_sorted(entries, (n - 1) as nat);
        let before = by_name(entries, (n - 1) as nat);
        let e = entries[n - 1];
        let key = sort_key(e);
        lemma_place_after(before, key, 0);
        let at = place_after(before, key, 0);
        let now = by_name(entries, n);
        assert(now == before.insert(at as int, e));
        assert forall|i: int, j: int| 0 <= i < j < now.len() implies !text_less(
            sort_key(#[trigger] now[j]),
            sort_key(#[trigger] now[i]),
        ) by {
            if i < at {
                assert(now[i] == before[i]);
            } else if i > at {
                assert(now[i] == before[i - 1]);
            }
            if j < at {
                assert(now[j] == before[j]);
            } else if j > at {
                assert(now[j] == before[j - 1]);
            }
        }
        assert(entries.take(n as int) =~= entries.take(n - 1).push(e));
        assert(now.remove(at as int) =~= before);
        assert(now[at as int] == e);
        now.to_multiset_ensures();
        assert(now.contains(e));
        assert(now.to_multiset() =~= before.to_multiset().insert(e));
    } else {
        assert(entries.take(0) =~= seq![]);
        assert(by_name(entries, 0) =~= entries.take(0));
    }
    let now = by_name(entries, n);
    if now.len() > CATALOG_LIMIT {
        let some = now.take(CATALOG_LIMIT as int);
        assert forall|i: int, j: int| 0 <= i < j < some.len() implies !text_less(
            sort_key(#[trigger] some[j]),
            sort_key(#[trigger] some[i]),
        ) by {
            assert(some[i] == now[i] && some[j] == now[j]);
        }
    }
}

/// Every text is before the next.
pub open spec fn is_text_set(set: Seq<Seq<char>>) -> bool {
    forall|i: int, j: int|
        0 <= i < j < set.len() ==> text_less(#[trigger] set[i], #[trigger] set[j])
}

proof fn lemma_place_for(set: Seq<Seq<char>>, c: Seq<char>, i: nat)
    requires
        i <= set.len(),
        is_text_set(set),
    ensures
        i <= place_for(set, c, i) <= set.len(),
        forall|k: int| i <= k < place_for(set, c, i) ==> text_less(#[trigger] set[k], c),
        forall|k: int|
            place_for(set, c, i) <= k < set.len() ==> !text_less(#[trigger] set[k], c),
        forall|k: int| place_for(set, c, i) < k < set.len() ==> text_less(c, #[trigger] set[k]),
    decreases set.len() - i,
{
    if i < set.len() {
        if text_less(set[i as int], c) {
            lemma_place_for(set, c, i + 1);
        } else {
            assert forall|k: int| i < k < set.len() implies text_less(c, #[trigger] set[k]) by {
                assert(text_less(set[i as int], set[k]));
                law_texts_are_ordered(set[i as int], c, set[k]);
                law_texts_are_ordered(c, set[i as int], set[k]);
            }
            assert forall|k: int| i <= k < set.len() implies !text_less(#[trigger] set[k], c) by {
                if k > i {
                    law_texts_are_ordered(c, set[k], c);
                }
            }
        }
    }
}

/// The categories that are collected are those that occur and are not empty,
/// sorted, each once.
pub proof fn law_categories_are_those_that_occur(list: Seq<Seq<char>>, n: nat, c: Seq<char>)
    requires
        n <= list.len(),
    ensures
        is_text_set(text_set(list, n)),
        text_set(list, n).contains(c) <==> c.len() > 0 && list.take(n as int).contains(c),
    decreases n,
{
    if n > 0 {
        law_categories_are_those_that_occur(list, (n - 1) as nat, c);
        let before = text_set(list, (n - 1) as nat);
        let now = text_set(list, n);
        let x = list[n - 1];
        let long = list.take(n as int);
        let short = list.take(n - 1);
        assert(long =~= short.push(x));
        assert(long.contains(c) <==> short.contains(c) || c == x) by {
            if short.contains(c) {
                let k = choose|k: int| 0 <= k < short.len() && short[k] == c;
                assert(long[k] == c);
            }
            if c == x {
                assert(long[n - 1] == c);
            }
            if long.contains(c) && c != x {
                let k = choose|k: int| 0 <= k < long.len() && long[k] == c;
                assert(short[k] == c);
            }
        }
        if x.len() > 0 {
            lemma_place_for(before, x, 0);
            let at = place_for(before, x, 0) as int;
            if at < before.len() && before[at] == x {
                assert(before.contains(x));
            } else {
                assert(now == before.insert(at, x));
                if at < before.len() {
                    law_texts_are_ordered(before[at], x, x);
                }
                assert forall|i: int, j: int| 0 <= i < j < now.len() implies text_less(
                    #[trigger] now[i],
                    #[trigger] now[j],
                ) by {
                    if i < at {
                        assert(now[i] == before[i]);
                    } else if i > at {
                        assert(now[i] == before[i - 1]);
                    }
                    if j < at {
                        assert(now[j] == before[j]);
                    } else if j > at {
                        assert(now[j] == before[j - 1]);
                    }
                }
                assert(now.contains(c) <==> before.contains(c) || c == x) by {
                    if before.contains(c) {
                        let k = choose|k: int| 0 <= k < before.len() && before[k] == c;
                        if k < at {
                            assert(now[k] == c);
                        } else {
                            assert(now[k + 1] == c);
                        }
                    }
                    if c == x {
                        assert(now[at] == c);
                    }
                    if now.contains(c) && c != x {
                        let k = choose|k: int| 0 <= k < now.len() && now[k] == c;
                        if k < at {
                            assert(before[k] == c);
                        } else {
                            assert(before[k - 1] == c);
                        }
                    }
                }
            }
        }
    } else {
        assert(list.take(0) =~= seq![]);
    }
}

/// An entry is listed just where it is of the chosen category, if one is
/// chosen, and something of it holds what is searched for: its name, its
/// category, a tag or its id.
pub proof fn law_search_finds_what_holds_the_query(
    e: RemoteView,
    query: Seq<char>,
    category: Seq<char>,
    i: int,
)
    requires
        0 <= i < e.tags.len(),
        category.len() == 0 || equal_ignoring_case(e.category, category),
    ensures
        query.len() == 0 ==> is_listed(e, query, category),
        occurs(lowercased(e.name), query) ==> is_listed(e, query, category),
        occurs(lowercased(e.category), query) ==> is_listed(e, query, category),
        occurs(lowercased(e.source_id), query) ==> is_listed(e, query, category),
        occurs(lowercased(e.tags[i]), query) ==> is_listed(e, query, category),
{
    lemma_some_holds(e.tags, query, e.tags.len());
}

proof fn lemma_some_holds(list: Seq<Seq<char>>, query: Seq<char>, n: nat)
    requires
        n <= list.len(),
    ensures
        some_holds(list, query, n) <==> exists|i: int|
            0 <= i < n && occurs(lowercased(#[trigger] list[i]), query),
    decreases n,
{
    if n > 0 {
        lemma_some_holds(list, query, (n - 1) as nat);
    }
}

/// What holds nothing of the query, or is of another category, is not
/// listed.
pub proof fn law_search_leaves_out_the_rest(e: RemoteView, query: Seq<char>, category: Seq<char>)
    ensures
        category.len() > 0 && !equal_ignoring_case(e.category, category) ==> !is_listed(
            e,
            query,
            category,
        ),
        query.len() > 0 && !occurs(lowercased(e.name), query) && !occurs(
            lowercased(e.category),
            query,
        ) && !occurs(lowercased(e.source_id), query) && (forall|i: int|
            0 <= i < e.tags.len() ==> !occurs(lowercased(#[trigger] e.tags[i]), query))
            ==> !is_listed(e, query, category),
{
    lemma_some_holds(e.tags, query, e.tags.len());
}

/// The list holds the places of the entries that are listed, in order.
pub proof fn law_listed_entries_are_shown(
    entries: Seq<RemoteView>,
    query: Seq<char>,
    category: Seq<char>,
    n: nat,
    i: usize,
)
    requires
        n <= entries.len() <= usize::MAX,
    ensures
        listed_places(entries, query, category, n).contains(i) <==> i < n && is_listed(
            entries[i as int],
            query,
            category,
        ),
        forall|a: int, b: int|
            0 <= a < b < listed_places(entries, query, category, n).len()
                ==> #[trigger] listed_places(entries, query, category, n)[a]
                < #[trigger] listed_places(entries, query, category, n)[b],
        forall|a: int|
            0 <= a < listed_places(entries, query, category, n).len() ==> #[trigger] listed_places(
                entries,
                query,
                category,
                n,
            )[a] < n,
    decreases n,
{
    if n > 0 {
        law_listed_entries_are_shown(entries, query, category, (n - 1) as nat, i);
        let before = listed_places(entries, query, category, (n - 1) as nat);
        let now = listed_places(entries, query, category, n);
        if before.contains(i) {
            let k = choose|k: int| 0 <= k < before.len() && before[k] == i;
            assert(now[k] == i);
        }
        if now.len() > before.len() {
            assert(now[before.len() as int] == n - 1);
        }
        if now.contains(i) && !before.contains(i) {
            assert(i == n - 1);
        }
    }
}

/// A label is never longer than it may be, whole where it fits, and marked
/// where it does not.
pub proof fn law_labels_fit(s: Seq<char>, most: nat)
    requires
        most > 0,
    ensures
        shortened(s, most).len() <= most,
        s.len() <= most ==> shortened(s, most) == s,
        s.len() > most ==> shortened(s, most).len() == most && shortened(s, most).last()
            == '\u{2026}' && forall|i: int|
            0 <= i < most - 1 ==> #[trigger] shortened(s, most)[i] == s[i],
{
    reveal_strlit("\u{2026}");
}

/// Entries without an id are passed over; the others keep their order, and
/// what has no name goes by its id.
pub proof fn law_entries_have_ids(assets: Seq<JsonView>, n: nat)
    requires
        n <= assets.len(),
    ensures
        ambient_entries(assets, n).len() <= n,
        forall|k: int|
            0 <= k < ambient_entries(assets, n).len() ==> (#[trigger] ambient_entries(
                assets,
                n,
            )[k]).source_id.len() > 0,
        n > 0 && text_field(assets[n - 1], "assetId"@) is Some && text_field(
            assets[n - 1],
            "assetId"@,
        )->0.len() > 0 ==> ({
            let id = text_field(assets[n - 1], "assetId"@)->0;
            let e = ambient_entries(assets, n).last();
            &&& ambient_entries(assets, n).len() == ambient_entries(assets, (n - 1) as nat).len() + 1
            &&& e.source_id == id
            &&& text_field(assets[n - 1], "displayName"@) is None ==> e.name == id
            &&& text_field(assets[n - 1], "displayName"@) matches Some(name) ==> e.name == name
        }),
    decreases n,
{
    reveal_strlit("");
    if n > 0 {
        law_entries_have_ids(assets, (n - 1) as nat);
    }
}

/// Every texture of the record becomes one entry, under its own key.
pub proof fn law_every_record_is_an_entry(fields: Seq<(Seq<char>, JsonView)>, n: nat, i: int)
    requires
        0 <= i < n <= fields.len(),
    ensures
        poly_entries(fields, n).len() == n,
        poly_entries(fields, n)[i].source_id == fields[i].0,
        text_field(fields[i].1, "name"@) is None ==> poly_entries(fields, n)[i].name == fields[i].0,
        text_field(fields[i].1, "name"@) matches Some(name) ==> poly_entries(fields, n)[i].name
            == name,
    decreases n,
{
    if n > 1 {
        law_every_record_is_an_entry(
            fields,
            (n - 1) as nat,
            if i < n - 1 {
                i
            } else {
                0
            },
        );
    } else {
        assert(poly_entries(fields, 0).len() == 0);
    }
}

/// A catalog is cut off at its limit, and keeps what comes first.
pub proof fn law_catalogs_are_limited(entries: Seq<RemoteView>, i: int)
    requires
        0 <= i < limited(entries).len(),
    ensures
        limited(entries).len() <= 120,
        entries.len() <= 120 ==> limited(entries) == entries,
        entries.len() > 120 ==> limited(entries).len() == 120,
        limited(entries)[i] == entries[i],
{
}

} // verus!
