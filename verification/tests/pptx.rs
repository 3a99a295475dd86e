use genhat::document::{DocBuilder, ElementKind};
use genhat::pptx::{
    add_slide_text, extract_slide_number, fallback_image, fallback_images, media_entries, note_handled, parse_rels_xml, plan_slide,
    relationship_target, resolve_media_path, slide_entries, slide_order, slide_rels_path,
};
use genhat::slides::parse_slide_xml;

const SLIDE: &str = r#"<?xml version="1.0" encoding="UTF-8"?>
<p:sld xmlns:a="http://schemas.openxmlformats.org/drawingml/2006/main"
       xmlns:p="http://schemas.openxmlformats.org/presentationml/2006/main"
       xmlns:r="http://schemas.openxmlformats.org/officeDocument/2006/relationships">
  <p:cSld><p:spTree>
    <p:sp><p:txBody><a:p><a:r><a:t>Hello</a:t></a:r><a:r><a:t>World</a:t></a:r></a:p></p:txBody></p:sp>
    <p:pic><p:blipFill><a:blip r:embed="rId2"/></p:blipFill></p:pic>
    <p:graphicFrame><a:graphic><a:graphicData><a:tbl>
      <a:tr><a:tc><a:txBody><a:p><a:r><a:t> A1 </a:t></a:r></a:p></a:txBody></a:tc><a:tc><a:txBody><a:p><a:r><a:t>B1</a:t></a:r></a:p></a:txBody></a:tc></a:tr>
      <a:tr><a:tc><a:txBody><a:p><a:r><a:t>A2</a:t></a:r></a:p></a:txBody></a:tc></a:tr>
    </a:tbl></a:graphicData></a:graphic></p:graphicFrame>
    <p:pic><p:blipFill><a:blip r:embed="rId9"/></p:blipFill></p:pic>
  </p:spTree></p:cSld>
</p:sld>"#;

const RELS: &str = r#"<?xml version="1.0" encoding="UTF-8"?>
<Relationships xmlns="http://schemas.openxmlformats.org/package/2006/relationships">
  <Relationship Id="rId1" Type="t" Target="../slideLayouts/slideLayout1.xml"/>
  <Relationship Id="rId2" Type="t" Target="../media/image1.png"/>
  <Relationship Id="rId3" Type="t" Target=""/>
</Relationships>"#;

#[test]
fn slide_numbers_from_names() {
    assert_eq!(extract_slide_number("ppt/slides/slide3.xml"), 3);
    assert_eq!(extract_slide_number("ppt/slides/slide12.xml"), 12);
    assert_eq!(extract_slide_number("ppt/slides/slideX.xml"), 0);
    assert_eq!(extract_slide_number("ppt/slides/slide+7.xml"), 7);
    assert_eq!(extract_slide_number("ppt/slides/slide-7.xml"), 0);
    assert_eq!(extract_slide_number("ppt/slides/slideppt/slides/slide4.xml"), 4);
    assert_eq!(extract_slide_number("ppt/slides/slide5.xml.xml"), 5);
    assert_eq!(extract_slide_number("ppt/slides/slide99999999999.xml"), 0);
    assert_eq!(extract_slide_number("ppt/slides/slide4294967295.xml"), 4294967295);
    assert_eq!(extract_slide_number("ppt/slides/slide.xml"), 0);
}

#[test]
fn slides_sort_numerically_and_stably() {
    let names: Vec<String> = ["ppt/slides/slide10.xml", "ppt/slides/slide2.xml", "ppt/slides/slideA.xml",
        "ppt/slides/slide1.xml", "ppt/slides/slideB.xml", "ppt/slides/slide02.xml"]
        .iter().map(|s| s.to_string()).collect();
    let order = slide_order(&names);
    assert_eq!(order, vec![2, 4, 3, 1, 5, 0]);
}

#[test]
fn entries_are_filtered() {
    let names: Vec<String> = ["ppt/slides/slide1.xml", "ppt/slides/_rels/slide1.xml.rels", "ppt/media/",
        "ppt/media/image1.png", "word/media/a.png", "ppt/slides/slideLayout.xml"]
        .iter().map(|s| s.to_string()).collect();
    assert_eq!(slide_entries(&names), vec!["ppt/slides/slide1.xml".to_string(), "ppt/slides/slideLayout.xml".to_string()]);
    assert_eq!(media_entries(&names, "ppt/media/"), vec!["ppt/media/image1.png".to_string()]);
    assert_eq!(media_entries(&names, "word/media/"), vec!["word/media/a.png".to_string()]);
}

#[test]
fn paths_resolve() {
    assert_eq!(slide_rels_path("ppt/slides/slide1.xml"), "ppt/slides/_rels/slide1.xml.rels");
    assert_eq!(resolve_media_path("../media/image1.png"), "ppt/media/image1.png");
    assert_eq!(resolve_media_path("../../media/x.png"), "ppt/media/x.png");
    assert_eq!(resolve_media_path("image2.png"), "ppt/slides/image2.png");
}

#[test]
fn rels_map_ids_to_targets() {
    let rels = parse_rels_xml(RELS);
    assert_eq!(rels.len(), 2);
    assert_eq!(relationship_target(&rels, "rId2"), Some("../media/image1.png".to_string()));
    assert_eq!(relationship_target(&rels, "rId3"), None);
    assert_eq!(relationship_target(&rels, "rId9"), None);
}

#[test]
fn rels_later_declarations_win() {
    let xml = r#"<Relationships><Relationship Id="a" Target="one"/><Relationship Id="a" Target="two"/></Relationships>"#;
    let rels = parse_rels_xml(xml);
    assert_eq!(relationship_target(&rels, "a"), Some("two".to_string()));
}

#[test]
fn slide_xml_is_read() {
    let c = parse_slide_xml(SLIDE);
    assert_eq!(c.text, "Hello World ");
    assert_eq!(c.image_embed_ids, vec!["rId2".to_string(), "rId9".to_string()]);
    assert_eq!(c.tables.len(), 1);
    assert_eq!(c.tables[0], vec![vec!["A1".to_string(), "B1".to_string()], vec!["A2".to_string()]]);
}

#[test]
fn slide_xml_stops_at_errors() {
    let c = parse_slide_xml(r#"<x xmlns:a="urn:drawingml"><a:t>kept</a:t><a:t>broken</b><a:t>lost</a:t></x>"#);
    assert_eq!(c.text, "kept broken ");
    let none = parse_slide_xml("not xml at all <");
    assert_eq!(none.text, "");
}

#[test]
fn text_outside_drawingml_is_skipped() {
    let c = parse_slide_xml(r#"<x xmlns:o="urn:other"><o:t>no</o:t></x>"#);
    assert_eq!(c.text, "");
}

#[test]
fn slide_plan_and_text() {
    let c = parse_slide_xml(SLIDE);
    let rels = parse_rels_xml(RELS);
    let mut b = DocBuilder::new();
    add_slide_text(&mut b, 3, &c);
    assert_eq!(b.sections.len(), 1);
    assert_eq!(b.sections[0].text, "Hello World");
    assert_eq!(b.sections[0].metadata, "slide:3");
    assert_eq!(b.elements[0].kind, ElementKind::Text);
    let plan = plan_slide(3, &c, &rels, true);
    assert_eq!(plan.images.len(), 1);
    assert_eq!(plan.images[0].source, "ppt/media/image1.png");
    assert_eq!(plan.images[0].file_name, "pptx_s3_img1.png");
    assert_eq!(plan.images[0].metadata, "slide:3:image:1");
    assert_eq!(plan.images[0].caption, "Hello World ");
    assert_eq!(plan.tables.len(), 1);
    assert_eq!(plan.tables[0].text, "A1\tB1\nA2");
    assert_eq!(plan.tables[0].media.file_name, "pptx_s3_tbl1.png");
    assert_eq!(plan.tables[0].media.metadata, "slide:3:table:1");
    b.add_table(&plan.tables[0], false);
    assert_eq!(b.sections[1].metadata, "slide:3:table:1");
    assert_eq!(b.elements[1].content, "A1\tB1\nA2");
    let empty = plan_slide(3, &c, &rels, false);
    assert!(empty.images.is_empty() && empty.tables.is_empty());
}

#[test]
fn blank_slide_adds_nothing() {
    let c = parse_slide_xml(r#"<x xmlns:a="urn:drawingml"><a:t>   </a:t></x>"#);
    let mut b = DocBuilder::new();
    add_slide_text(&mut b, 1, &c);
    assert!(b.sections.is_empty() && b.elements.is_empty());
    let plan = plan_slide(1, &c, &Vec::new(), true);
    assert!(plan.images.is_empty());
}

#[test]
fn captions_fall_back_when_slide_has_no_text() {
    let c = parse_slide_xml(r#"<x xmlns:a="urn:drawingml" xmlns:r="urn:r"><a:blip r:embed="i"/><a:tbl><a:tr><a:tc><a:t>v</a:t></a:tc></a:tr></a:tbl></x>"#);
    let rels = parse_rels_xml(r#"<R><Relationship Id="i" Target="img.png"/></R>"#);
    let plan = plan_slide(2, &c, &rels, true);
    assert_eq!(plan.images[0].caption, "(slide 2 image)");
    assert_eq!(plan.tables[0].media.caption, "(slide 2 table)");
}

#[test]
fn fallback_images_are_named_for_slide_zero() {
    let r = fallback_image(4, "ppt/media/image9.png");
    assert_eq!(r.file_name, "pptx_s0_img4.png");
    assert_eq!(r.metadata, "slide:0:image:4");
    assert_eq!(r.caption, "(presentation image)");
    assert_eq!(r.source, "ppt/media/image9.png");
}

#[test]
fn fallback_images_are_not_added_twice() {
    let r = fallback_image(1, "ppt/media/a.png");
    let mut b = DocBuilder::new();
    b.add_image_unique(&r, true);
    b.add_image_unique(&r, true);
    b.add_image_unique(&fallback_image(2, "x"), false);
    assert_eq!(b.elements.len(), 1);
    assert_eq!(b.elements[0].media_path, Some("pptx_s0_img1.png".to_string()));
}

#[test]
fn fallback_skips_pictures_a_slide_used() {
    let rels = parse_rels_xml(r#"<Relationships><Relationship Id="rId2" Target="../media/image1.png"/></Relationships>"#);
    let content = parse_slide_xml(SLIDE);
    let plan = plan_slide(1, &content, &rels, true);
    assert_eq!(plan.images.len(), 1);
    assert_eq!(plan.images[0].source, "ppt/media/image1.png");
    let mut handled = Vec::new();
    note_handled(&mut handled, &plan);
    assert_eq!(handled, vec!["ppt/media/image1.png".to_string()]);
    let media = vec!["ppt/media/image1.png".to_string(), "ppt/media/image2.png".to_string()];
    let reqs = fallback_images(&media, &handled);
    assert_eq!(reqs.len(), 1);
    assert_eq!(reqs[0].source, "ppt/media/image2.png");
    assert_eq!(reqs[0].file_name, "pptx_s0_img2.png");
    assert_eq!(reqs[0].metadata, "slide:0:image:2");
}
