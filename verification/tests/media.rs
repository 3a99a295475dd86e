use genhat::grid::grid_layout_fits;
use genhat::media::{docx_media_image, prepare_picture, table_png};

fn rows(r: &[&[&str]]) -> Vec<Vec<String>> {
    r.iter().map(|row| row.iter().map(|c| c.to_string()).collect()).collect()
}

fn noisy_png(w: u32, h: u32) -> Vec<u8> {
    let img = image::RgbImage::from_fn(w, h, |x, y| {
        let v = (x.wrapping_mul(2654435761) ^ y.wrapping_mul(40503)) as u8;
        image::Rgb([v, v.wrapping_mul(7), v.wrapping_add(x as u8)])
    });
    let mut out = std::io::Cursor::new(Vec::new());
    image::DynamicImage::ImageRgb8(img).write_to(&mut out, image::ImageFormat::Png).unwrap();
    out.into_inner()
}

#[test]
fn table_grid_is_drawn() {
    let t: Vec<Vec<String>> = (0..30)
        .map(|i| vec![format!("row {i}"), "x".repeat(10), "y".repeat(60)])
        .collect();
    assert!(grid_layout_fits(&t));
    let png = table_png(&t).unwrap();
    let img = image::load_from_memory(&png).unwrap().to_rgb8();
    // columns: max(60, 6*7+16) = 60, 10*7+16 = 86, min(60*7+16, 300) = 300
    // width 60 + 86 + 300 + 4 = 450; height 30 * 25 + 1 = 751
    assert_eq!(img.dimensions(), (450, 751));
    assert_eq!(img.get_pixel(0, 10).0, [80, 80, 80]);
    assert_eq!(img.get_pixel(61, 10).0, [80, 80, 80]);
    assert_eq!(img.get_pixel(148, 10).0, [80, 80, 80]);
    assert_eq!(img.get_pixel(449, 10).0, [80, 80, 80]);
    assert_eq!(img.get_pixel(10, 0).0, [80, 80, 80]);
    assert_eq!(img.get_pixel(10, 25).0, [80, 80, 80]);
    assert_eq!(img.get_pixel(10, 750).0, [80, 80, 80]);
    assert_eq!(img.get_pixel(10, 10).0, [230, 230, 240]);
    assert_eq!(img.get_pixel(10, 30).0, [255, 255, 255]);
    assert_eq!(img.get_pixel(100, 710).0, [255, 255, 255]);
}

#[test]
fn grid_image_is_capped_at_2000() {
    let t: Vec<Vec<String>> = (0..100).map(|_| (0..10).map(|_| "z".repeat(50)).collect()).collect();
    let png = table_png(&t).unwrap();
    let img = image::load_from_memory(&png).unwrap().to_rgb8();
    assert_eq!(img.dimensions(), (2000, 2000));
}

#[test]
fn small_tables_are_not_kept() {
    let t = rows(&[&["x"]]);
    assert!(table_png(&t).is_none());
    // large enough in pixels, but its file is under the size limit
    let small_file = rows(&[&["Name", "Value"], &["alpha", "1"], &["beta", "2"]]);
    assert!(table_png(&small_file).is_none());
    assert!(table_png(&Vec::new()).is_none());
}

#[test]
fn wide_cells_cap_at_300() {
    let long = "y".repeat(100);
    let t: Vec<Vec<String>> = (0..40).map(|_| vec![long.clone()]).collect();
    let png = table_png(&t).unwrap();
    let img = image::load_from_memory(&png).unwrap().to_rgb8();
    assert_eq!(img.dimensions(), (302, 1001));
}

#[test]
fn pictures_are_kept_when_large() {
    assert!(prepare_picture(&[]).is_none());
    assert!(prepare_picture(b"garbage").is_none());
    assert!(prepare_picture(&noisy_png(20, 20)).is_none());
    let big = prepare_picture(&noisy_png(200, 120)).unwrap();
    let back = image::load_from_memory(&big).unwrap();
    assert_eq!((back.width(), back.height()), (200, 120));
}

#[test]
fn docx_images_are_counted() {
    let mut counter = 0u32;
    assert!(docx_media_image(&mut counter, &noisy_png(10, 10), "").is_none());
    assert_eq!(counter, 0);
    let first = docx_media_image(&mut counter, &noisy_png(200, 120), "").unwrap();
    assert_eq!(counter, 1);
    assert_eq!(first.request.file_name, "docx_img1.png");
    assert_eq!(first.request.metadata, "image:1");
    assert_eq!(first.request.caption, "(embedded image from document)");
    let second = docx_media_image(&mut counter, &noisy_png(150, 90), "Context text").unwrap();
    assert_eq!(second.request.file_name, "docx_img2.png");
    assert_eq!(second.request.caption, "Context text");
}


#[test]
fn docx_media_pictures_quote_the_last_body_text() {
    let mut st = genhat::docx::DocxState::new();
    let mut b = genhat::document::DocBuilder::new();
    let p = |t: &str| genhat::docx::DocParagraph {
        children: vec![genhat::docx::ParagraphPart::Run(vec![genhat::docx::RunItem::Text(t.to_string())])],
    };
    st.add_paragraph(&mut b, &p("Intro"), true);
    st.add_paragraph(&mut b, &p("End"), true);
    let mut counter = 0u32;
    let img = st.media_image(&mut counter, &noisy_png(200, 120)).unwrap();
    assert_eq!(counter, 1);
    assert_eq!(img.request.file_name, "docx_img1.png");
    assert_eq!(img.request.caption, "End");
}
