//! Pages of documents, rendered here and named by the library.

use hayro::hayro_interpret::InterpreterSettings;
use hayro::hayro_syntax::Pdf;
use hayro::vello_cpu::color::palette::css::WHITE;
use hayro::{render, PixmapSettings, RenderCache, RenderSettings};
use modeler_app::pdf::{is_pdf, name_page, name_pages};
use modeler_app::ref_image::deliver_setup_file;

fn page_pictures(bytes: Vec<u8>) -> Vec<Option<Vec<u8>>> {
    let Ok(pdf) = Pdf::new(bytes) else { return Vec::new() };
    let cache = RenderCache::new();
    let interpreter = InterpreterSettings::default();
    let mut pictures = Vec::new();
    for page in pdf.pages().iter() {
        let (w, h) = page.render_dimensions();
        let scale = (200.0f32 / 72.0).min(4096.0 / w.max(h).max(1.0));
        let pixmap = PixmapSettings { x_scale: scale, y_scale: scale, bg_color: WHITE };
        let settings = RenderSettings::default();
        pictures.push(render(page, &cache, &interpreter, &settings, &pixmap).into_png().ok());
    }
    pictures
}

fn render_pages(stem: &str, bytes: Vec<u8>) -> Vec<(String, Vec<u8>)> {
    name_pages(stem, page_pictures(bytes))
}

/// Build a valid PDF with one blank page per `(w, h)` in points,
/// computing the xref table offsets for real.
fn minimal_pdf(pages: &[(u32, u32)]) -> Vec<u8> {
    let kids: Vec<String> = (0..pages.len()).map(|i| format!("{} 0 R", 3 + i)).collect();
    let mut objects = vec![
        "<< /Type /Catalog /Pages 2 0 R >>".to_string(),
        format!("<< /Type /Pages /Kids [{}] /Count {} >>", kids.join(" "), pages.len()),
    ];
    for (w, h) in pages {
        objects.push(format!("<< /Type /Page /Parent 2 0 R /MediaBox [0 0 {w} {h}] >>"));
    }

    let mut out = b"%PDF-1.4\n".to_vec();
    let mut offsets = Vec::new();
    for (i, body) in objects.iter().enumerate() {
        offsets.push(out.len());
        out.extend_from_slice(format!("{} 0 obj\n{body}\nendobj\n", i + 1).as_bytes());
    }
    let xref_at = out.len();
    out.extend_from_slice(format!("xref\n0 {}\n", objects.len() + 1).as_bytes());
    out.extend_from_slice(b"0000000000 65535 f \n");
    for offset in offsets {
        out.extend_from_slice(format!("{offset:010} 00000 n \n").as_bytes());
    }
    out.extend_from_slice(
        format!(
            "trailer\n<< /Size {} /Root 1 0 R >>\nstartxref\n{xref_at}\n%%EOF\n",
            objects.len() + 1
        )
        .as_bytes(),
    );
    out
}

#[test]
fn detects_pdf_headers() {
    assert!(is_pdf(b"%PDF-1.7 rest of file"));
    assert!(is_pdf(b"\xef\xbb\xbfjunk%PDF-1.4"), "header may sit past leading junk");
    assert!(!is_pdf(b"\x89PNG\r\n"));
    assert!(!is_pdf(b""));
}

#[test]
fn single_page_keeps_the_plain_name() {
    // A4 in points; 200 DPI -> 595 * 200/72 = 1652 px wide
    let delivered = render_pages("plan", minimal_pdf(&[(595, 842)]));
    assert_eq!(delivered.len(), 1);
    assert_eq!(delivered[0].0, "plan");
    let size = image::load_from_memory(&delivered[0].1).unwrap();
    assert_eq!(size.width(), 1652);
    assert_eq!(size.height(), 2338);
}

#[test]
fn multi_page_names_and_caps_huge_sheets() {
    // second page is A0 landscape: 3370 pt long side exceeds the cap
    let delivered = render_pages("set", minimal_pdf(&[(595, 842), (3370, 2384)]));
    assert_eq!(delivered.len(), 2);
    assert_eq!(delivered[0].0, "set p1");
    assert_eq!(delivered[1].0, "set p2");
    let big = image::load_from_memory(&delivered[1].1).unwrap();
    assert_eq!(big.width(), 4096, "long side clamps to the texture cap");
}

#[test]
fn garbage_delivers_nothing() {
    let bytes = b"%PDF-1.4 but not actually a pdf".to_vec();
    assert_eq!(render_pages("x", bytes).len(), 0);
}

#[test]
fn headers_past_the_first_kilobyte_do_not_count() {
    let mut late = vec![b' '; 1019];
    late.extend_from_slice(b"%PDF-");
    assert!(is_pdf(&late));
    late.insert(0, b' ');
    assert!(!is_pdf(&late));
}

#[test]
fn pages_that_fail_keep_the_numbers_of_the_others() {
    let named = name_pages("set", vec![Some(vec![1]), None, Some(vec![3])]);
    assert_eq!(
        named,
        vec![("set p1".to_string(), vec![1]), ("set p3".to_string(), vec![3])]
    );
    assert_eq!(name_page("set", 2, 3), "set p3");
    assert_eq!(name_page("plan", 0, 1), "plan");
}

#[test]
fn files_that_are_no_documents_pass_as_they_are() {
    let picture = vec![0x89, b'P', b'N', b'G'];
    let passed = deliver_setup_file("front".to_string(), picture.clone(), Vec::new());
    assert_eq!(passed, vec![("front".to_string(), picture)]);
    let document = b"%PDF-1.4".to_vec();
    let pages = vec![Some(vec![1]), Some(vec![2])];
    let named = deliver_setup_file("set".to_string(), document, pages);
    assert_eq!(named.len(), 2);
    assert_eq!(named[1], ("set p2".to_string(), vec![2]));
}
