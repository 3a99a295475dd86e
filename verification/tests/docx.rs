use genhat::docx::{
    extract_docx_image_by_rel, extract_drawing_rel_id, extract_table_text, paragraph_has_drawing,
    paragraph_text, body_children, docx_parse_error, table_cell_texts, BodyChild, CellContent, DocCell,
    DocParagraph, DocTable, DocxState, Drawing, ParagraphPart, RunItem,
};
use genhat::document::{DocBuilder, ElementKind};
use docx_rs::{Docx, Paragraph, Run, Table, TableCell, TableRow};

fn para(texts: &[&str]) -> DocParagraph {
    DocParagraph {
        children: vec![ParagraphPart::Run(texts.iter().map(|t| RunItem::Text(t.to_string())).collect())],
    }
}

fn cell(text: &str) -> DocCell {
    DocCell { children: vec![CellContent::Paragraph(para(&[text])), CellContent::Other] }
}

#[test]
fn paragraph_text_joins_runs() {
    let p = DocParagraph {
        children: vec![
            ParagraphPart::Run(vec![RunItem::Text("Hel".into()), RunItem::Other, RunItem::Text("lo".into())]),
            ParagraphPart::Other,
            ParagraphPart::Run(vec![RunItem::Drawing(Drawing), RunItem::Text(" you".into())]),
        ],
    };
    assert_eq!(paragraph_text(&p), "Hello you");
    assert!(paragraph_has_drawing(&p));
    assert!(!paragraph_has_drawing(&para(&["x"])));
    assert_eq!(extract_drawing_rel_id(&Drawing), None);
    assert!(extract_docx_image_by_rel("a.docx", "rId1", "/tmp", "ctx", 1).is_none());
}

#[test]
fn table_text_is_tab_and_newline_separated() {
    let t = DocTable { rows: vec![vec![cell(" a "), cell("b")], vec![cell("c")]] };
    assert_eq!(extract_table_text(&t), "a\tb\nc");
    assert_eq!(table_cell_texts(&t), vec![vec!["a".to_string(), "b".to_string()], vec!["c".to_string()]]);
}

#[test]
fn paragraphs_and_tables_are_numbered() {
    let mut st = DocxState::new();
    let mut b = DocBuilder::new();
    st.add_paragraph(&mut b, &para(&["  First  "]), true);
    st.add_paragraph(&mut b, &para(&["   "]), true);
    st.add_paragraph(&mut b, &para(&["Second"]), false);
    assert_eq!(st.para_idx, 2);
    assert_eq!(b.sections[1].metadata, "paragraph:2");
    assert_eq!(b.elements[0].content, "First");
    assert_eq!(st.prev_text, "Second");
    let t = DocTable { rows: vec![vec![cell("x"), cell("y")]] };
    let req = st.table_request(&t).unwrap();
    assert_eq!(st.table_idx, 1);
    assert_eq!(req.text, "x\ty");
    assert_eq!(req.media.file_name, "docx_tbl1.png");
    assert_eq!(req.media.caption, "Second");
    assert_eq!(req.media.metadata, "table:1");
    assert_eq!(st.prev_text, "x\ty");
    b.add_table(&req, true);
    assert_eq!(b.elements[2].kind, ElementKind::Table);
    assert_eq!(b.elements[2].media_path, Some("docx_tbl1.png".to_string()));
    let blank = DocTable { rows: vec![vec![cell(" ")]] };
    assert!(st.table_request(&blank).is_none());
    assert_eq!(st.table_idx, 1);
}

#[test]
fn table_caption_without_context() {
    let mut st = DocxState::new();
    let req = st.table_request(&DocTable { rows: vec![vec![cell("v")]] }).unwrap();
    assert_eq!(req.media.caption, "(table #1)");
}

#[test]
fn invalid_docx_is_reported() {
    let err = docx_rs::read_docx(b"not a zip").map_err(|e| docx_parse_error(&e.to_string())).unwrap_err();
    assert!(err.starts_with("DOCX parse error: "));
    assert_eq!(docx_parse_error("bad zip"), "DOCX parse error: bad zip");
}

#[test]
fn docx_package_is_read() {
    let mut buf = std::io::Cursor::new(Vec::new());
    Docx::new()
        .add_paragraph(Paragraph::new().add_run(Run::new().add_text("Hello ")).add_run(Run::new().add_text("docx")))
        .add_table(Table::new(vec![TableRow::new(vec![
            TableCell::new().add_paragraph(Paragraph::new().add_run(Run::new().add_text("c1"))),
            TableCell::new().add_paragraph(Paragraph::new().add_run(Run::new().add_text("c2"))),
        ])]))
        .build()
        .pack(&mut buf)
        .unwrap();
    let docx = docx_rs::read_docx(&buf.into_inner()).unwrap();
    let body = body_children(&docx);
    assert_eq!(body.len(), 2);
    assert!(matches!(body[0], BodyChild::Paragraph(_)));
    assert!(matches!(body[1], BodyChild::Table(_)));
    let mut texts = Vec::new();
    for child in &body {
        match child {
            BodyChild::Paragraph(p) => texts.push(paragraph_text(p)),
            BodyChild::Table(t) => texts.push(extract_table_text(t)),
            BodyChild::Other => {}
        }
    }
    assert!(texts.contains(&"Hello docx".to_string()));
    assert!(texts.contains(&"c1\tc2".to_string()));
}
