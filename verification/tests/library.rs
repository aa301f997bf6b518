//! The material library: catalogs, imports and the local collection, and the
//! files, texts and replies that they are made of.

use modeler_app::images::{
    color_sums, cpu_texture, list_thumbnail, pack_orm, sample_color_sums, small_picture, Pixels,
};
use modeler_app::net::{
    bytes_outcome, get_request, sends_get, settle, text_outcome, BytesTask, HttpTask, Received,
    Reply,
};
use modeler_app::pbr_catalog::{
    collect_categories, collect_texts, filter_entries, parse_ambientcg_catalog,
    parse_polyhaven_catalog, pbr_sources, truncate_label, RemotePbrEntry, CATALOG_LIMIT,
};
use modeler_app::pbr_import::{
    ambientcg_map_urls, polyhaven_map_urls_from_files_json, BaseColor,
};
use modeler_app::pbr_library::{
    ambient_url, poly_url, Advance, Catalog, PbrLibraryPanel, Polled, Tab,
};
use modeler_app::scalar::Scalar;
use modeler_app::text::{contains, decimal_string, join, same, starts_with};

fn f(x: f32) -> Scalar {
    Scalar::of_bits(x.to_bits())
}

const AMBIENT: &str = r#"{"foundAssets": [
    {"assetId": "Bricks075", "displayName": "Bricks 075", "displayCategory": "Bricks",
     "previewImage": {"256-PNG": "p.png", "256-JPG-FFFFFF": "p.jpg"}, "tags": ["wall", 7, "Red"]},
    {"displayName": "no id"},
    {"assetId": "Wood012"}
]}"#;

#[test]
fn the_ambientcg_catalog_is_read() {
    let entries = parse_ambientcg_catalog(AMBIENT).unwrap();
    assert_eq!(entries.len(), 2, "an asset without an id is left out");
    let e = &entries[0];
    assert_eq!((e.source, e.source_id.as_str()), ("ambientcg", "Bricks075"));
    assert_eq!((e.name.as_str(), e.category.as_str()), ("Bricks 075", "Bricks"));
    assert_eq!(e.thumbnail_url, "p.jpg");
    assert_eq!(e.tags, vec!["wall", "Red"]);
    assert_eq!(entries[1].name, "Wood012", "the id stands for a missing name");
    assert_eq!(collect_categories(&entries), vec!["Bricks"]);
    assert_eq!(parse_ambientcg_catalog("{}").unwrap_err(), "missing foundAssets");
    assert!(parse_ambientcg_catalog("{").unwrap_err().starts_with("json: "));
}

#[test]
fn the_poly_haven_catalog_is_sorted_and_cut() {
    let body = r#"{
        "zinc": {"name": "Zinc", "categories": ["metal", "roof"], "thumbnail_url": "z.png"},
        "bark": {"categories": []},
        "apple": {"name": "apple", "tags": ["fruit"], "categories": ["food"]}
    }"#;
    let entries = parse_polyhaven_catalog(body).unwrap();
    let names: Vec<&str> = entries.iter().map(|e| e.name.as_str()).collect();
    assert_eq!(names, vec!["apple", "bark", "Zinc"], "capitals do not count");
    assert_eq!(entries[2].tags, vec!["metal", "roof"], "categories stand for missing tags");
    assert_eq!(entries[0].tags, vec!["fruit"]);
    assert_eq!(
        entries[1].thumbnail_url,
        "https://cdn.polyhaven.com/asset_img/thumbs/bark.png?width=256&height=256"
    );
    assert_eq!(parse_polyhaven_catalog("[]").unwrap_err(), "expected object");
    let many: Vec<String> = (0..150).map(|i| format!("\"m{i:03}\": {{}}")).collect();
    let listed = parse_polyhaven_catalog(&format!("{{{}}}", many.join(","))).unwrap();
    assert_eq!(listed.len(), CATALOG_LIMIT);
    assert_eq!(listed[119].source_id, "m119");
}

#[test]
fn entries_are_found_by_words_and_category() {
    let entries = parse_ambientcg_catalog(AMBIENT).unwrap();
    assert_eq!(filter_entries(&entries, "", ""), vec![0, 1]);
    assert_eq!(filter_entries(&entries, "RED", ""), vec![0], "tags count, capitals do not");
    assert_eq!(filter_entries(&entries, "wood", ""), vec![1]);
    assert_eq!(filter_entries(&entries, "", "bricks"), vec![0]);
    assert!(filter_entries(&entries, "wood", "bricks").is_empty());
    let texts = ["b", "", "a", "b"].map(str::to_string).to_vec();
    assert_eq!(collect_texts(&texts), vec!["a", "b"]);
    assert_eq!(truncate_label("Bricks", 6), "Bricks");
    assert_eq!(truncate_label("Brickwork", 6), "Brick…");
}

#[test]
fn the_maps_of_an_asset_are_named() {
    let maps = ambientcg_map_urls("Wood012");
    let names: Vec<&str> = maps.iter().map(|m| m.0.as_str()).collect();
    assert_eq!(names, vec!["albedo", "normal", "roughness", "occlusion", "metallic"]);
    assert!(maps[0].1.ends_with("/Wood012/Wood012_SQ_Color.jpg"), "{}", maps[0].1);
    let url = |name: &str| format!("\"{name}\": {{\"1k\": {{\"jpg\": {{\"url\": \"{name}.jpg\"}}}}}}");
    let body = format!("{{{}, {}, {}}}", url("Diffuse"), url("nor_gl"), url("arm"));
    let maps = polyhaven_map_urls_from_files_json(&body).unwrap();
    let pairs: Vec<(&str, &str)> = maps.iter().map(|m| (m.0.as_str(), m.1.as_str())).collect();
    assert_eq!(
        pairs,
        vec![
            ("albedo", "Diffuse.jpg"),
            ("normal", "nor_gl.jpg"),
            ("roughness", "arm.jpg"),
            ("occlusion", "arm.jpg"),
            ("metallic", "arm.jpg"),
        ]
    );
    let none = polyhaven_map_urls_from_files_json("{}").unwrap_err();
    assert_eq!(none, "no 1k jpg maps found");
    assert!(polyhaven_map_urls_from_files_json("?").unwrap_err().starts_with("files json: "));
}

#[test]
fn some_sources_are_integrated() {
    let sources = pbr_sources();
    let integrated: Vec<&str> =
        sources.iter().filter(|s| s.integrated).map(|s| s.name).collect();
    assert_eq!(integrated, vec!["ambientCG", "Poly Haven"]);
    assert!(ambient_url().starts_with("https://ambientcg.com/"));
    assert!(poly_url().starts_with("https://api.polyhaven.com/"));
    assert_eq!((Tab::AmbientCg.label(), Tab::AmbientCg.short_label()), ("ambientCG", "aCG"));
}

fn entry(source: &'static str, id: &str) -> RemotePbrEntry {
    RemotePbrEntry {
        source,
        source_id: id.to_string(),
        name: format!("Name {id}"),
        category: "Wood".to_string(),
        thumbnail_url: String::new(),
        tags: Vec::new(),
    }
}

#[test]
fn a_catalog_is_loaded_when_its_tab_is_chosen() {
    let mut panel = PbrLibraryPanel::new(Vec::new());
    assert_eq!(panel.tab(), Tab::Sources);
    let (id, catalog) = panel.choose_tab(Tab::AmbientCg).expect("it is downloaded");
    assert_eq!(catalog, Catalog::Ambient);
    assert!(panel.catalog_in_flight(Catalog::Ambient));
    assert!(panel.choose_tab(Tab::AmbientCg).is_none(), "not twice");
    assert!(matches!(panel.poll(id, Polled::Pending), Advance::Nothing));
    let body = Polled::Text(Ok(AMBIENT.to_string()));
    assert!(matches!(panel.poll(id, body), Advance::Nothing));
    assert!(panel.is_loaded(Catalog::Ambient));
    assert_eq!(panel.entries(Catalog::Ambient).len(), 2);
    assert_eq!(panel.categories(), &vec!["Bricks".to_string()]);
    assert_eq!(panel.take_status().as_deref(), Some("ambientCG: 2 materials"));
    assert!(panel.take_status().is_none());
    panel.choose_category("Bricks");
    assert_eq!(panel.category_filter(), "Bricks");
    panel.choose_category("Bricks");
    assert_eq!(panel.category_filter(), "");

    let id = panel.reload_catalog(Catalog::Ambient);
    assert!(!panel.is_loaded(Catalog::Ambient));
    panel.poll(id, Polled::Text(Err("offline".to_string())));
    assert_eq!(panel.error(Catalog::Ambient).map(|e| e.as_str()), Some("offline"));
    assert_eq!(panel.take_status().as_deref(), Some("ambientCG: offline"));
    assert!(!panel.catalog_in_flight(Catalog::Ambient));
}

#[test]
fn the_colour_of_an_albedo_map_that_was_not_stored_is_ignored() {
    let mut panel = PbrLibraryPanel::new(Vec::new());
    panel.start_import(&entry("ambientcg", "Wood012"), true, true);
    let id = panel.job_ids()[0];
    let mut polled = Polled::Pending;
    let keys = loop {
        match panel.poll(id, polled) {
            Advance::Fetch { .. } => polled = Polled::Bytes(Ok(vec![1])),
            Advance::Store { keys } => break keys,
            _ => polled = Polled::Pending,
        }
    };
    let stored: Vec<bool> = keys.iter().map(|k| !k.contains("albedo")).collect();
    let grey = BaseColor { r: f(0.5), g: f(0.5), b: f(0.5) };
    assert!(panel.finish_import(id, &stored, Some(grey)));
    let applied = panel.take_apply().unwrap();
    assert!(applied.textures.albedo.is_none());
    assert_eq!(applied.base_color, None);
}

#[test]
fn an_import_downloads_its_maps_and_is_listed_once() {
    let mut panel = PbrLibraryPanel::new(Vec::new());
    for _ in 0..2 {
        panel.start_import(&entry("ambientcg", "Wood012"), true, true);
        panel.start_import(&entry("ambientcg", "Wood012"), true, true);
        assert_eq!(panel.take_status().as_deref(), Some("import already in progress"));
        let id = panel.job_ids()[0];
        let mut fetched = 0;
        let mut polled = Polled::Pending;
        let keys = loop {
            match panel.poll(id, polled) {
                Advance::Fetch { url } => {
                    fetched += 1;
                    assert!(panel.import_progress("Wood012").unwrap().in_flight);
                    // the metallic map comes first, and is missing
                    polled = Polled::Bytes(if url.contains("Metalness") {
                        Err("HTTP 404".to_string())
                    } else {
                        Ok(vec![fetched])
                    });
                }
                Advance::Store { keys } => break keys,
                _ => polled = Polled::Pending,
            }
        };
        assert_eq!(fetched, 5);
        assert_eq!(keys.len(), 4);
        assert!(keys.contains(&"ambientcg/Wood012/albedo.jpg".to_string()));
        assert_eq!(panel.import_maps(id).unwrap().len(), 4);
        let grey = BaseColor { r: f(0.5), g: f(0.5), b: f(0.5) };
        assert!(panel.finish_import(id, &vec![true; 4], Some(grey)), "the collection changed");
        assert!(panel.job_ids().is_empty());
        assert_eq!(panel.take_status().as_deref(), Some("imported PBR 'Name Wood012'"));
        let applied = panel.take_apply().expect("it is put on the selection");
        assert_eq!(applied.name, "Name Wood012");
        assert_eq!(applied.base_color, Some(grey));
        assert_eq!(applied.metallic, Some(f(0.0)));
        assert_eq!(applied.roughness, Some(f(0.5)));
        assert_eq!(applied.textures.normal.as_deref(), Some("ambientcg/Wood012/normal.jpg"));
        assert!(applied.textures.metallic.is_none());
        assert_eq!(panel.local().len(), 1, "the material is listed once");
    }
    assert_eq!(panel.local()[0].id, "ambientcg:Wood012");
    assert_eq!(panel.local()[0].license, "CC0");
    assert_eq!(panel.filter_local("WOOD"), vec![0]);
    assert!(panel.filter_local("brick").is_empty());
    panel.apply_local(0);
    assert_eq!(panel.take_apply().unwrap().name, "Name Wood012");
    panel.delete_local("ambientcg:Wood012");
    assert!(panel.local().is_empty());
    assert_eq!(panel.take_status().as_deref(), Some("removed from local collection"));
}

#[test]
fn a_list_of_files_is_replaced_by_its_maps() {
    let mut panel = PbrLibraryPanel::new(Vec::new());
    panel.start_import(&entry("polyhaven", "bark"), false, true);
    let id = panel.job_ids()[0];
    let Advance::Fetch { url } = panel.poll(id, Polled::Pending) else { panic!("the list first") };
    assert_eq!(url, "https://api.polyhaven.com/files/bark");
    assert!(panel.import_progress("bark").unwrap().resolving);
    // a stray byte that is no text does not hide the rest
    let mut body = br#"{"x": ""#.to_vec();
    body.push(0xff);
    body.extend_from_slice(br#"", "Diffuse": {"1k": {"jpg": {"url": "d.jpg"}}}}"#);
    panel.poll(id, Polled::Bytes(Ok(body)));
    panel.expand_poly_files();
    let Advance::Fetch { url } = panel.poll(id, Polled::Pending) else { panic!("then the maps") };
    assert_eq!(url, "d.jpg");
    let p = panel.import_progress("bark").unwrap();
    assert_eq!((p.completed, p.total, p.label.as_str()), (0, 1, "albedo"));
    assert!(panel.import_progress("other").is_none());

    let mut panel = PbrLibraryPanel::new(Vec::new());
    panel.start_import(&entry("polyhaven", "bark"), false, true);
    let id = panel.job_ids()[0];
    panel.poll(id, Polled::Pending);
    panel.poll(id, Polled::Bytes(Ok(b"{}".to_vec())));
    panel.expand_poly_files();
    assert_eq!(
        panel.take_status().as_deref(),
        Some("Poly Haven files: no 1k jpg maps found")
    );
}

#[test]
fn thumbnails_are_downloaded_once() {
    let mut panel = PbrLibraryPanel::new(Vec::new());
    assert!(panel.ensure_thumb("thumbs/a", true).is_none(), "it is there already");
    let id = panel.ensure_thumb("thumbs/a", false).expect("downloaded");
    assert!(panel.ensure_thumb("thumbs/a", false).is_none(), "on its way");
    match panel.poll(id, Polled::Bytes(Ok(vec![1, 2]))) {
        Advance::KeepThumb { key, bytes } => {
            assert_eq!((key.as_str(), bytes), ("thumbs/a", vec![1, 2]));
        }
        other => panic!("{other:?}"),
    }
    assert!(panel.job_ids().is_empty());
}

fn png(width: u32, height: u32, color: [u8; 4]) -> Vec<u8> {
    let mut bytes = std::io::Cursor::new(Vec::new());
    image::RgbaImage::from_pixel(width, height, image::Rgba(color))
        .write_to(&mut bytes, image::ImageFormat::Png)
        .unwrap();
    bytes.into_inner()
}

#[test]
fn pictures_are_decoded_and_scaled_down() {
    let bytes = png(300, 150, [10, 20, 30, 255]);
    let whole = cpu_texture(&bytes).unwrap();
    assert_eq!((whole.width, whole.height, whole.rgba.len()), (300, 150, 300 * 150 * 4));
    let thumb = list_thumbnail(&bytes).unwrap();
    assert_eq!((thumb.width, thumb.height), (128, 64));
    assert_eq!(thumb.rgba[..4], [10, 20, 30, 255]);
    assert!(cpu_texture(&vec![1, 2, 3]).is_none() && list_thumbnail(&vec![1]).is_none());
    let sums = sample_color_sums(&bytes).unwrap();
    assert_eq!(sums.pixels, 32 * 16);
    assert_eq!((sums.r, sums.g, sums.b), (10 * 512, 20 * 512, 30 * 512));
    let sums = color_sums(&vec![1, 2, 3, 255, 10, 20, 30, 0]);
    assert_eq!((sums.r, sums.g, sums.b, sums.pixels), (11, 22, 33, 2));
}

/// A white file of one row, two bytes for each pixel.
fn white_row(width: u32) -> Vec<u8> {
    let mut bytes = std::io::Cursor::new(Vec::new());
    image::ImageBuffer::<image::Luma<u16>, Vec<u16>>::from_pixel(width, 1, image::Luma([u16::MAX]))
        .write_to(&mut bytes, image::ImageFormat::Png)
        .unwrap();
    bytes.into_inner()
}

#[test]
fn a_file_is_averaged_only_where_its_sums_fit() {
    let sums = sample_color_sums(&white_row(64)).unwrap();
    assert_eq!((sums.r, sums.pixels), (32 * 255, 32));
    // 65536 pixels to average for each: the most that fits
    let edge = white_row(65536 * 32);
    let sums = sample_color_sums(&edge).unwrap();
    assert_eq!((sums.r, sums.g, sums.b, sums.pixels), (32 * 255, 32 * 255, 32 * 255, 32));
    // one more of each does not
    let wide = white_row(65537 * 32);
    assert!(cpu_texture(&wide).is_some());
    assert!(sample_color_sums(&wide).is_none());
    // a larger picture averages fewer
    let thumb = list_thumbnail(&wide).unwrap();
    assert_eq!((thumb.width, thumb.height, thumb.rgba[..4].to_vec()), (128, 1, vec![255; 4]));
    let small = small_picture(&png(4, 2, [1, 2, 3, 255]), 2, 8).unwrap();
    assert_eq!(((small.width, small.height), small.rgba), ((2, 1), [1, 2, 3, 255].repeat(2)));
}

#[test]
fn three_maps_are_packed_into_one() {
    let map = |width: u32, values: &[u8]| Pixels {
        width,
        height: 1,
        rgba: values.iter().flat_map(|v| [*v, 0, 0, 255]).collect(),
    };
    let rough = map(2, &[10, 20]);
    let metal = map(2, &[30, 40]);
    let small = map(1, &[50]);
    let packed = pack_orm(Some(&small), Some(&rough), Some(&metal)).unwrap();
    // a map of another size does not count
    assert_eq!(packed.rgba, vec![255, 10, 30, 255, 255, 20, 40, 255]);
    let packed = pack_orm(Some(&metal), Some(&rough), None).unwrap();
    assert_eq!(packed.rgba, vec![30, 10, 0, 255, 40, 20, 0, 255]);
    assert!(pack_orm(Some(&metal), None, Some(&metal)).is_none());
}

#[test]
fn a_task_gives_its_outcome_once() {
    let (tx, rx) = std::sync::mpsc::channel();
    let mut task = HttpTask::new(rx);
    assert!(task.poll().is_none());
    tx.send(Ok("body".to_string())).unwrap();
    assert_eq!(task.poll(), Some(Ok("body".to_string())));
    drop(tx);
    assert!(task.poll().is_none(), "it came once");

    let (tx, rx) = std::sync::mpsc::channel::<Result<Vec<u8>, String>>();
    let mut task = BytesTask::new(rx);
    drop(tx);
    assert!(matches!(task.poll(), Some(Err(_))), "a sender that is gone is an error");
    assert!(task.poll().is_none());

    let mut finished = false;
    assert!(settle::<u8>(&mut finished, Received::Empty).is_none() && !finished);
    assert_eq!(settle(&mut finished, Received::Message(Ok(5u8))), Some(Ok(5)));
    assert!(finished);
    assert!(settle(&mut finished, Received::Message(Ok(6u8))).is_none());
}

#[test]
fn replies_become_outcomes() {
    assert_eq!(text_outcome(Reply::Success(Ok("a".to_string()))), Ok("a".to_string()));
    // services explain an error status in its body
    let explained = text_outcome(Reply::Status(404, Ok("no such asset".to_string())));
    assert_eq!(explained, Ok("no such asset".to_string()));
    let silent = text_outcome(Reply::Status(404, Ok(" \n".to_string())));
    assert_eq!(silent, Err("HTTP 404".to_string()));
    let cut = text_outcome(Reply::Success(Err("eof".to_string())));
    assert_eq!(cut, Err("response read failed: eof".to_string()));
    let failed = text_outcome(Reply::Failed("dns".to_string()));
    assert_eq!(failed, Err("request failed: dns".to_string()));
    assert_eq!(bytes_outcome(Reply::Success(Ok(vec![1]))), Ok(vec![1]));
    let refused = bytes_outcome(Reply::Status(500, Ok(vec![1])));
    assert_eq!(refused, Err("HTTP 500".to_string()));
    let request = get_request("https://example.org", "agent");
    assert!(sends_get(&request) && request.body.is_none());
    assert_eq!(request.headers, vec![("User-Agent".to_string(), "agent".to_string())]);
}

#[test]
fn texts_are_compared_by_their_letters() {
    assert!(contains("Brickwork", "kwo") && !contains("Brick", "Bricks"));
    assert!(contains("x", "") && starts_with("Brick", "Br") && !starts_with("Brick", "r"));
    assert!(same("ä", "ä") && !same("a", "ä"));
    assert_eq!(join("ab", "cd"), "abcd");
    assert_eq!((decimal_string(0), decimal_string(1200)), ("0".to_string(), "1200".to_string()));
}
