//! DOCX body structure: paragraphs and tables as the parser reads them,
//! their text, and what each contributes to the document.
use vstd::prelude::*;
use crate::document::{
    caption_for, caption_of, new_tagged, new_text_element, text_element, BlockSpec, DocBuilder,
    MediaRequest, MediaSpec, ParsedElement, TableRequest,
};
use crate::media::{docx_media_image, docx_media_step, prepared_view, PreparedImage};
use crate::pptx::{table_req_view, TableSpec};
use crate::text::{
    append_str, decimal, rows_view, string_from, strings_view, table_text, table_text_of, trim,
    trim_str,
};

verus! {

#[verifier::external_type_specification]
#[verifier::external_body]
pub struct ExDocx(docx_rs::Docx);

#[verifier::external_type_specification]
#[verifier::external_body]
pub struct ExParagraph(docx_rs::Paragraph);

#[verifier::external_type_specification]
#[verifier::external_body]
pub struct ExRun(docx_rs::Run);

#[verifier::external_type_specification]
#[verifier::external_body]
pub struct ExTable(docx_rs::Table);

#[verifier::external_type_specification]
#[verifier::external_body]
pub struct ExTableCell(docx_rs::TableCell);

/// A drawing inside a run (its inline or anchored graphic is not read).
#[derive(Debug)]
pub struct Drawing;

/// What a run holds: text, a drawing, or something else.
#[derive(Debug)]
pub enum RunItem {
    Text(String),
    Drawing(Drawing),
    Other,
}

/// A child of a paragraph: a run with its items, or something else.
#[derive(Debug)]
pub enum ParagraphPart {
    Run(Vec<RunItem>),
    Other,
}

/// A paragraph.
#[derive(Debug)]
pub struct DocParagraph {
    pub children: Vec<ParagraphPart>,
}

/// The content of a table cell: a paragraph, or something else.
#[derive(Debug)]
pub enum CellContent {
    Paragraph(DocParagraph),
    Other,
}

/// A table cell.
#[derive(Debug)]
pub struct DocCell {
    pub children: Vec<CellContent>,
}

/// A table: rows of cells.
#[derive(Debug)]
pub struct DocTable {
    pub rows: Vec<Vec<DocCell>>,
}

/// A child of the document body.
#[derive(Debug)]
pub enum BodyChild {
    Paragraph(DocParagraph),
    Table(DocTable),
    Other,
}

/// The view of a run item.
pub enum RunSpec {
    Text(Seq<char>),
    Drawing,
    Other,
}

impl View for RunItem {
    type V = RunSpec;

    open spec fn view(&self) -> RunSpec {
        match self {
            RunItem::Text(t) => RunSpec::Text(t@),
            RunItem::Drawing(_) => RunSpec::Drawing,
            RunItem::Other => RunSpec::Other,
        }
    }
}

/// The view of a paragraph part: the run's items, or `None`.
pub open spec fn part_view(p: ParagraphPart) -> Option<Seq<RunSpec>> {
    match p {
        ParagraphPart::Run(items) => Some(items@.map_values(|r: RunItem| r@)),
        ParagraphPart::Other => None,
    }
}

impl View for DocParagraph {
    type V = Seq<Option<Seq<RunSpec>>>;

    open spec fn view(&self) -> Seq<Option<Seq<RunSpec>>> {
        self.children@.map_values(|c: ParagraphPart| part_view(c))
    }
}

/// The view of a cell content: the paragraph, or `None`.
pub open spec fn content_view(c: CellContent) -> Option<Seq<Option<Seq<RunSpec>>>> {
    match c {
        CellContent::Paragraph(p) => Some(p@),
        CellContent::Other => None,
    }
}

impl View for DocCell {
    type V = Seq<Option<Seq<Option<Seq<RunSpec>>>>>;

    open spec fn view(&self) -> Seq<Option<Seq<Option<Seq<RunSpec>>>>> {
        self.children@.map_values(|c: CellContent| content_view(c))
    }
}

pub open spec fn row_view(r: Seq<DocCell>) -> Seq<Seq<Option<Seq<Option<Seq<RunSpec>>>>>> {
    r.map_values(|c: DocCell| c@)
}

impl View for DocTable {
    type V = Seq<Seq<Seq<Option<Seq<Option<Seq<RunSpec>>>>>>>;

    open spec fn view(&self) -> Seq<Seq<Seq<Option<Seq<Option<Seq<RunSpec>>>>>>> {
        self.rows@.map_values(|r: Vec<DocCell>| row_view(r@))
    }
}

/// The text of a run: its text items, concatenated.
pub open spec fn run_text(items: Seq<RunSpec>) -> Seq<char>
    decreases items.len(),
{
    if items.len() == 0 {
        Seq::empty()
    } else {
        run_text(items.drop_last()) + match items.last() {
            RunSpec::Text(t) => t,
            _ => Seq::empty(),
        }
    }
}

/// The text of a paragraph: the text of its runs, concatenated.
pub open spec fn para_text(p: Seq<Option<Seq<RunSpec>>>) -> Seq<char>
    decreases p.len(),
{
    if p.len() == 0 {
        Seq::empty()
    } else {
        para_text(p.drop_last()) + match p.last() {
            Some(items) => run_text(items),
            None => Seq::empty(),
        }
    }
}

/// A paragraph holds a drawing in one of its runs.
pub open spec fn para_has_drawing(p: Seq<Option<Seq<RunSpec>>>) -> bool {
    exists|i: int| 0 <= i < p.len() && part_has_drawing(#[trigger] p[i])
}

/// A paragraph part is a run with a drawing.
pub open spec fn part_has_drawing(part: Option<Seq<RunSpec>>) -> bool {
    match part {
        Some(items) => exists|j: int| 0 <= j < items.len() && #[trigger] items[j] == RunSpec::Drawing,
        None => false,
    }
}

/// The text of a cell: the text of its paragraphs, concatenated.
pub open spec fn cell_text(c: Seq<Option<Seq<Option<Seq<RunSpec>>>>>) -> Seq<char>
    decreases c.len(),
{
    if c.len() == 0 {
        Seq::empty()
    } else {
        cell_text(c.drop_last()) + match c.last() {
            Some(p) => para_text(p),
            None => Seq::empty(),
        }
    }
}

/// The text of runs, paragraphs and cells is made of all their parts, in
/// order: splitting a sequence of parts anywhere splits its text there,
/// and one part alone gives that part's text.
pub proof fn lemma_text_of_parts(
    r1: Seq<RunSpec>,
    r2: Seq<RunSpec>,
    p1: Seq<Option<Seq<RunSpec>>>,
    p2: Seq<Option<Seq<RunSpec>>>,
    c1: Seq<Option<Seq<Option<Seq<RunSpec>>>>>,
    c2: Seq<Option<Seq<Option<Seq<RunSpec>>>>>,
)
    ensures
        run_text(r1 + r2) == run_text(r1) + run_text(r2),
        para_text(p1 + p2) == para_text(p1) + para_text(p2),
        cell_text(c1 + c2) == cell_text(c1) + cell_text(c2),
        forall|t: Seq<char>| #[trigger] run_text(seq![RunSpec::Text(t)]) == t,
        run_text(seq![RunSpec::Drawing]) == Seq::<char>::empty(),
        run_text(seq![RunSpec::Other]) == Seq::<char>::empty(),
        forall|items: Seq<RunSpec>| #[trigger] para_text(seq![Some(items)]) == run_text(items),
        para_text(seq![None]) == Seq::<char>::empty(),
        forall|p: Seq<Option<Seq<RunSpec>>>| #[trigger] cell_text(seq![Some(p)]) == para_text(p),
        cell_text(seq![None]) == Seq::<char>::empty(),
{
    lemma_run_text_concat(r1, r2);
    lemma_para_text_concat(p1, p2);
    lemma_cell_text_concat(c1, c2);
    let e = Seq::<char>::empty();
    assert(e + e =~= e);
    assert forall|t: Seq<char>| #[trigger] run_text(seq![RunSpec::Text(t)]) == t by {
        let one = seq![RunSpec::Text(t)];
        assert(one.len() == 1 && one.last() == RunSpec::Text(t));
        assert(one.drop_last() =~= Seq::<RunSpec>::empty());
        assert(run_text(one.drop_last()) == e);
        assert(e + t =~= t);
    }
    let d = seq![RunSpec::Drawing];
    assert(d.len() == 1 && d.last() == RunSpec::Drawing);
    assert(d.drop_last() =~= Seq::<RunSpec>::empty());
    assert(run_text(d.drop_last()) == e);
    let o = seq![RunSpec::Other];
    assert(o.len() == 1 && o.last() == RunSpec::Other);
    assert(o.drop_last() =~= Seq::<RunSpec>::empty());
    assert(run_text(o.drop_last()) == e);
    assert forall|items: Seq<RunSpec>| #[trigger] para_text(seq![Some(items)]) == run_text(items) by {
        let one = seq![Some(items)];
        assert(one.len() == 1 && one.last() == Some(items));
        assert(one.drop_last() =~= Seq::<Option<Seq<RunSpec>>>::empty());
        assert(para_text(one.drop_last()) == e);
        assert(e + run_text(items) =~= run_text(items));
    }
    let pn = seq![None::<Seq<RunSpec>>];
    assert(pn.len() == 1 && pn.last() == None::<Seq<RunSpec>>);
    assert(pn.drop_last() =~= Seq::<Option<Seq<RunSpec>>>::empty());
    assert(para_text(pn.drop_last()) == e);
    assert forall|p: Seq<Option<Seq<RunSpec>>>| #[trigger] cell_text(seq![Some(p)]) == para_text(p) by {
        let one = seq![Some(p)];
        assert(one.len() == 1 && one.last() == Some(p));
        assert(one.drop_last() =~= Seq::<Option<Seq<Option<Seq<RunSpec>>>>>::empty());
        assert(cell_text(one.drop_last()) == e);
        assert(e + para_text(p) =~= para_text(p));
    }
    let cn = seq![None::<Seq<Option<Seq<RunSpec>>>>];
    assert(cn.len() == 1 && cn.last() == None::<Seq<Option<Seq<RunSpec>>>>);
    assert(cn.drop_last() =~= Seq::<Option<Seq<Option<Seq<RunSpec>>>>>::empty());
    assert(cell_text(cn.drop_last()) == e);
}

proof fn lemma_run_text_concat(a: Seq<RunSpec>, b: Seq<RunSpec>)
    ensures
        run_text(a + b) == run_text(a) + run_text(b),
    decreases b.len(),
{
    if b.len() == 0 {
        assert(a + b =~= a);
        assert(run_text(a) + Seq::<char>::empty() =~= run_text(a));
    } else {
        assert((a + b).drop_last() =~= a + b.drop_last());
        assert((a + b).last() == b.last());
        lemma_run_text_concat(a, b.drop_last());
        assert(run_text(a + b) =~= run_text(a) + run_text(b));
    }
}

proof fn lemma_para_text_concat(a: Seq<Option<Seq<RunSpec>>>, b: Seq<Option<Seq<RunSpec>>>)
    ensures
        para_text(a + b) == para_text(a) + para_text(b),
    decreases b.len(),
{
    if b.len() == 0 {
        assert(a + b =~= a);
        assert(para_text(a) + Seq::<char>::empty() =~= para_text(a));
    } else {
        assert((a + b).drop_last() =~= a + b.drop_last());
        assert((a + b).last() == b.last());
        lemma_para_text_concat(a, b.drop_last());
        assert(para_text(a + b) =~= para_text(a) + para_text(b));
    }
}

proof fn lemma_cell_text_concat(
    a: Seq<Option<Seq<Option<Seq<RunSpec>>>>>,
    b: Seq<Option<Seq<Option<Seq<RunSpec>>>>>,
)
    ensures
        cell_text(a + b) == cell_text(a) + cell_text(b),
    decreases b.len(),
{
    if b.len() == 0 {
        assert(a + b =~= a);
        assert(cell_text(a) + Seq::<char>::empty() =~= cell_text(a));
    } else {
        assert((a + b).drop_last() =~= a + b.drop_last());
        assert((a + b).last() == b.last());
        lemma_cell_text_concat(a, b.drop_last());
        assert(cell_text(a + b) =~= cell_text(a) + cell_text(b));
    }
}

/// The trimmed cell texts of a table, row by row.
pub open spec fn table_cells(t: Seq<Seq<Seq<Option<Seq<Option<Seq<RunSpec>>>>>>>) -> Seq<Seq<Seq<char>>> {
    t.map_values(|r: Seq<Seq<Option<Seq<Option<Seq<RunSpec>>>>>>| r.map_values(
        |c: Seq<Option<Seq<Option<Seq<RunSpec>>>>>| trim(cell_text(c)),
    ))
}

/// The text of a run.
fn run_text_of(items: &Vec<RunItem>) -> (t: String)
    ensures
        t@ == run_text(items@.map_values(|r: RunItem| r@)),
{
    let ghost iv = items@.map_values(|r: RunItem| r@);
    let mut t = String::new();
    let mut i: usize = 0;
    while i < items.len()
        invariant
            0 <= i <= items@.len(),
            iv == items@.map_values(|r: RunItem| r@),
            t@ == run_text(iv.take(i as int)),
        decreases items@.len() - i,
    {
        assert(iv.take(i + 1).drop_last() =~= iv.take(i as int));
        assert(iv.take(i + 1).last() == items@[i as int]@);
        match &items[i] {
            RunItem::Text(s) => append_str(&mut t, s.as_str()),
            _ => {
                assert(t@ + Seq::<char>::empty() =~= t@);
            },
        }
        i = i + 1;
    }
    assert(iv.take(i as int) =~= iv);
    t
}

/// The text of a paragraph.
pub fn paragraph_text(p: &DocParagraph) -> (t: String)
    ensures
        t@ == para_text(p@),
{
    let ghost pv = p@;
    let mut t = String::new();
    let mut i: usize = 0;
    while i < p.children.len()
        invariant
            0 <= i <= p.children@.len(),
            pv == p@,
            t@ == para_text(pv.take(i as int)),
        decreases p.children@.len() - i,
    {
        assert(pv.take(i + 1).drop_last() =~= pv.take(i as int));
        assert(pv.take(i + 1).last() == part_view(p.children@[i as int]));
        match &p.children[i] {
            ParagraphPart::Run(items) => {
                let rt = run_text_of(items);
                append_str(&mut t, rt.as_str());
            },
            ParagraphPart::Other => {
                assert(t@ + Seq::<char>::empty() =~= t@);
            },
        }
        i = i + 1;
    }
    assert(pv.take(i as int) =~= pv);
    t
}

/// Whether a run holds a drawing.
fn run_has_drawing(items: &Vec<RunItem>) -> (b: bool)
    ensures
        b == part_has_drawing(Some(items@.map_values(|r: RunItem| r@))),
{
    let ghost iv = items@.map_values(|r: RunItem| r@);
    let mut j: usize = 0;
    while j < items.len()
        invariant
            0 <= j <= items@.len(),
            iv == items@.map_values(|r: RunItem| r@),
            forall|m: int| 0 <= m < j ==> iv[m] != RunSpec::Drawing,
        decreases items@.len() - j,
    {
        assert(iv[j as int] == items@[j as int]@);
        match &items[j] {
            RunItem::Drawing(_) => {
                return true;
            },
            _ => {},
        }
        j = j + 1;
    }
    false
}

/// Whether a paragraph holds a drawing.
pub fn paragraph_has_drawing(p: &DocParagraph) -> (b: bool)
    ensures
        b == para_has_drawing(p@),
{
    let ghost pv = p@;
    let mut i: usize = 0;
    while i < p.children.len()
        invariant
            0 <= i <= p.children@.len(),
            pv == p@,
            forall|k: int| 0 <= k < i ==> !part_has_drawing(#[trigger] pv[k]),
        decreases p.children@.len() - i,
    {
        assert(pv[i as int] == part_view(p.children@[i as int]));
        match &p.children[i] {
            ParagraphPart::Run(items) => {
                if run_has_drawing(items) {
                    return true;
                }
            },
            ParagraphPart::Other => {},
        }
        i = i + 1;
    }
    false
}

/// The text of a table cell.
fn cell_text_of(c: &DocCell) -> (t: String)
    ensures
        t@ == cell_text(c@),
{
    let ghost cv = c@;
    let mut t = String::new();
    let mut i: usize = 0;
    while i < c.children.len()
        invariant
            0 <= i <= c.children@.len(),
            cv == c@,
            t@ == cell_text(cv.take(i as int)),
        decreases c.children@.len() - i,
    {
        assert(cv.take(i + 1).drop_last() =~= cv.take(i as int));
        assert(cv.take(i + 1).last() == content_view(c.children@[i as int]));
        match &c.children[i] {
            CellContent::Paragraph(p) => {
                let pt = paragraph_text(p);
                append_str(&mut t, pt.as_str());
            },
            CellContent::Other => {
                assert(t@ + Seq::<char>::empty() =~= t@);
            },
        }
        i = i + 1;
    }
    assert(cv.take(i as int) =~= cv);
    t
}

/// The trimmed texts of a table's cells, row by row.
pub fn table_cell_texts(table: &DocTable) -> (rows: Vec<Vec<String>>)
    ensures
        rows_view(rows@) == table_cells(table@),
{
    let ghost tv = table@;
    let mut rows: Vec<Vec<String>> = Vec::new();
    let mut r: usize = 0;
    while r < table.rows.len()
        invariant
            0 <= r <= table.rows@.len(),
            tv == table@,
            rows_view(rows@) == table_cells(tv.take(r as int)),
        decreases table.rows@.len() - r,
    {
        let row = &table.rows[r];
        let ghost rowv = row_view(row@);
        assert(tv[r as int] == rowv);
        let mut cells: Vec<String> = Vec::new();
        let mut c: usize = 0;
        while c < row.len()
            invariant
                0 <= c <= row@.len(),
                rowv == row_view(row@),
                strings_view(cells@) == rowv.take(c as int).map_values(
                    |x: Seq<Option<Seq<Option<Seq<RunSpec>>>>>| trim(cell_text(x)),
                ),
            decreases row@.len() - c,
        {
            let t = cell_text_of(&row[c]);
            let ghost before = cells@;
            cells.push(trim_str(t.as_str()));
            assert(rowv[c as int] == row@[c as int]@);
            assert(rowv.take(c + 1) =~= rowv.take(c as int).push(rowv[c as int]));
            assert(strings_view(cells@) =~= strings_view(before).push(trim(t@)));
            assert(strings_view(cells@) =~= rowv.take(c + 1).map_values(
                |x: Seq<Option<Seq<Option<Seq<RunSpec>>>>>| trim(cell_text(x)),
            ));
            c = c + 1;
        }
        assert(rowv.take(c as int) =~= rowv);
        let ghost before = rows@;
        let ghost cv = strings_view(cells@);
        rows.push(cells);
        assert(tv.take(r + 1) =~= tv.take(r as int).push(rowv));
        assert(rows_view(rows@) =~= rows_view(before).push(cv));
        assert(rows_view(rows@) =~= table_cells(tv.take(r + 1)));
        r = r + 1;
    }
    assert(tv.take(r as int) =~= tv);
    rows
}

/// Extract the text of a DOCX table: trimmed cells joined by tabs, rows by
/// line breaks.
pub fn extract_table_text(table: &DocTable) -> (t: String)
    ensures
        t@ == table_text(table_cells(table@)),
{
    let rows = table_cell_texts(table);
    table_text_of(&rows)
}

/// The relationship id of a drawing's picture. The drawing's graphic is not
/// read, so there is none; pictures are taken from the media folder instead.
pub fn extract_drawing_rel_id(_drawing: &Drawing) -> (id: Option<String>)
    ensures
        id is None,
{
    None
}

/// A picture of the DOCX by relationship id. Pictures are taken from the
/// media folder instead, so there is none.
pub fn extract_docx_image_by_rel(
    _docx_path: &str,
    _rel_id: &str,
    _media_dir: &str,
    _context: &str,
    _para_idx: u32,
) -> (e: Option<ParsedElement>)
    ensures
        e is None,
{
    None
}

/// The relationship ids of the pictures of a paragraph's drawings (none:
/// see `extract_drawing_rel_id`).
fn drawing_rel_ids(p: &DocParagraph) -> (ids: Vec<String>)
    ensures
        ids@.len() == 0,
{
    let mut ids: Vec<String> = Vec::new();
    let mut i: usize = 0;
    while i < p.children.len()
        invariant
            0 <= i <= p.children@.len(),
            ids@.len() == 0,
        decreases p.children@.len() - i,
    {
        match &p.children[i] {
            ParagraphPart::Run(items) => {
                let mut j: usize = 0;
                while j < items.len()
                    invariant
                        0 <= j <= items@.len(),
                        ids@.len() == 0,
                    decreases items@.len() - j,
                {
                    match &items[j] {
                        RunItem::Drawing(d) => {
                            match extract_drawing_rel_id(d) {
                                Some(id) => ids.push(id),
                                None => {},
                            }
                        },
                        _ => {},
                    }
                    j = j + 1;
                }
            },
            ParagraphPart::Other => {},
        }
        i = i + 1;
    }
    ids
}

/// Adds the pictures found by relationship id (none: see
/// `extract_docx_image_by_rel`).
fn add_drawing_images(b: &mut DocBuilder, rel_ids: &Vec<String>, context: &str, para_idx: u32)
    ensures
        final(b)@ == old(b)@,
{
    let ghost start = b@;
    let mut k: usize = 0;
    while k < rel_ids.len()
        invariant
            0 <= k <= rel_ids@.len(),
            b@ == start,
        decreases rel_ids@.len() - k,
    {
        match extract_docx_image_by_rel("", rel_ids[k].as_str(), "", context, para_idx) {
            Some(e) => b.push_element(e),
            None => {},
        }
        k = k + 1;
    }
}

/// Counters and context while walking the body: paragraphs and tables with
/// text so far, and the last text seen (for captions).
#[derive(Debug)]
pub struct DocxState {
    pub para_idx: u32,
    pub table_idx: u32,
    pub prev_text: String,
}

/// `"paragraph:N"`.
pub open spec fn paragraph_tag(n: nat) -> Seq<char> {
    "paragraph:"@ + decimal(n)
}

/// `"table:N"`.
pub open spec fn table_tag(n: nat) -> Seq<char> {
    "table:"@ + decimal(n)
}

impl DocxState {
    /// No paragraph or table yet, no context.
    pub fn new() -> (s: DocxState)
        ensures
            s.para_idx == 0,
            s.table_idx == 0,
            s.prev_text@ == Seq::<char>::empty(),
    {
        DocxState { para_idx: 0, table_idx: 0, prev_text: String::new() }
    }

    /// A paragraph: when its trimmed text is not empty, it is numbered,
    /// added as a section and a text element, and becomes the context.
    /// Pictures found through its drawings are added when there is a media
    /// directory (drawings name none, see `extract_drawing_rel_id`).
    pub fn add_paragraph(&mut self, b: &mut DocBuilder, p: &DocParagraph, with_media: bool)
        requires
            old(self).para_idx < u32::MAX,
        ensures
            trim(para_text(p@)).len() > 0 ==> {
                &&& final(self).para_idx == old(self).para_idx + 1
                &&& final(self).prev_text@ == trim(para_text(p@))
                &&& final(b)@.sections == old(b)@.sections.push(
                    BlockSpec {
                        text: trim(para_text(p@)),
                        metadata: paragraph_tag(final(self).para_idx as nat),
                    },
                )
                &&& final(b)@.elements == old(b)@.elements.push(
                    text_element(trim(para_text(p@)), paragraph_tag(final(self).para_idx as nat)),
                )
            },
            trim(para_text(p@)).len() == 0 ==> final(self).para_idx == old(self).para_idx
                && final(self).prev_text@ == old(self).prev_text@ && final(b)@ == old(b)@,
            final(self).table_idx == old(self).table_idx,
    {
        let text = paragraph_text(p);
        let has_image = paragraph_has_drawing(p);
        let rel_ids = drawing_rel_ids(p);
        let trimmed = trim_str(text.as_str());
        if !trimmed.as_str().is_empty() {
            self.para_idx = self.para_idx + 1;
            b.push_section(trimmed.clone(), new_tagged("paragraph:", self.para_idx as usize));
            b.push_element(new_text_element(trimmed.as_str(), new_tagged("paragraph:", self.para_idx as usize)));
            self.prev_text = trimmed;
        }
        if has_image && with_media {
            add_drawing_images(b, &rel_ids, self.prev_text.as_str(), self.para_idx);
        }
    }

    /// The next picture of the `word/media/` folder, read after the body:
    /// its caption quotes the text that precedes it, the last paragraph or
    /// table text of the body.
    pub fn media_image(&self, counter: &mut u32, bytes: &[u8]) -> (r: Option<PreparedImage>)
        requires
            *old(counter) < u32::MAX,
        ensures
            (*final(counter) as nat, prepared_view(r)) == docx_media_step(
                *old(counter) as nat,
                bytes@,
                self.prev_text@,
            ),
    {
        docx_media_image(counter, bytes, self.prev_text.as_str())
    }

    /// A table: when its text is not blank, it is numbered and becomes the
    /// context; the result is what to add for it (rendered as
    /// `docx_tblN.png` when kept).
    pub fn table_request(&mut self, t: &DocTable) -> (req: Option<TableRequest>)
        requires
            old(self).table_idx < u32::MAX,
        ensures
            trim(table_text(table_cells(t@))).len() > 0 ==> {
                &&& final(self).table_idx == old(self).table_idx + 1
                &&& final(self).prev_text@ == table_text(table_cells(t@))
                &&& req matches Some(r) && table_req_view(r) == docx_table_request(
                    final(self).table_idx as nat,
                    table_cells(t@),
                    old(self).prev_text@,
                )
            },
            trim(table_text(table_cells(t@))).len() == 0 ==> req is None && final(self).table_idx
                == old(self).table_idx && final(self).prev_text@ == old(self).prev_text@,
            final(self).para_idx == old(self).para_idx,
    {
        let rows = table_cell_texts(t);
        let text = table_text_of(&rows);
        let trimmed = trim_str(text.as_str());
        if trimmed.as_str().is_empty() {
            return None;
        }
        self.table_idx = self.table_idx + 1;
        let n = self.table_idx as usize;
        let caption = if self.prev_text.as_str().is_empty() {
            let mut c = new_tagged("(table #", n);
            append_str(&mut c, ")");
            c
        } else {
            caption_of(self.prev_text.as_str())
        };
        let mut file_name = new_tagged("docx_tbl", n);
        append_str(&mut file_name, ".png");
        let req = TableRequest {
            rows,
            text: text.clone(),
            media: MediaRequest {
                source: String::new(),
                file_name,
                caption,
                metadata: new_tagged("table:", n),
            },
        };
        self.prev_text = text;
        Some(req)
    }
}

/// What a DOCX table with text is added as: section and fallback text
/// element tagged `table:N`, image `docx_tblN.png` captioned by the context.
pub open spec fn docx_table_request(n: nat, rows: Seq<Seq<Seq<char>>>, context: Seq<char>) -> TableSpec {
    TableSpec {
        rows,
        text: table_text(rows),
        media: MediaSpec {
            source: Seq::empty(),
            file_name: "docx_tbl"@ + decimal(n) + ".png"@,
            caption: caption_for(context, "(table #"@ + decimal(n) + ")"@),
            metadata: table_tag(n),
        },
    }
}

/// A child of the document body as `docx-rs` holds it: a paragraph, a
/// table, or another kind.
pub enum BodyRef<'a> {
    Paragraph(&'a docx_rs::Paragraph),
    Table(&'a docx_rs::Table),
    Other,
}

/// The view of a body child: a paragraph's or table's view, or `Other`.
pub enum BodySpec {
    Paragraph(Seq<Option<Seq<RunSpec>>>),
    Table(Seq<Seq<Seq<Option<Seq<Option<Seq<RunSpec>>>>>>>),
    Other,
}

impl View for BodyChild {
    type V = BodySpec;

    open spec fn view(&self) -> BodySpec {
        match self {
            BodyChild::Paragraph(p) => BodySpec::Paragraph(p@),
            BodyChild::Table(t) => BodySpec::Table(t@),
            BodyChild::Other => BodySpec::Other,
        }
    }
}

/// What the body of a document holds as the parser reads it: its children
/// in order, each a paragraph or a table (with what it holds), or another
/// kind.
pub uninterp spec fn docx_body(d: docx_rs::Docx) -> Seq<BodySpec>;

/// The `document.children` of a `docx_rs::Docx`, in order, told apart by
/// kind; entry `i` stands for child `i` of `docx_body`.
#[verifier::external_body]
fn document_children(d: &docx_rs::Docx) -> (children: Vec<BodyRef<'_>>)
    ensures
        children@.len() == docx_body(*d).len(),
        forall|i: int| 0 <= i < children@.len() ==> match #[trigger] children@[i] {
            BodyRef::Paragraph(p) => docx_body(*d)[i] == BodySpec::Paragraph(docx_paragraph_parts(*p)),
            BodyRef::Table(t) => docx_body(*d)[i] == BodySpec::Table(docx_table_rows(*t)),
            BodyRef::Other => docx_body(*d)[i] is Other,
        },
{
    d.document.children.iter().map(|c| match c {
        docx_rs::DocumentChild::Paragraph(p) => BodyRef::Paragraph(&**p),
        docx_rs::DocumentChild::Table(t) => BodyRef::Table(&**t),
        _ => BodyRef::Other,
    }).collect()
}

/// What a run holds as the parser reads it: its children in order, each
/// as a text (its content), a drawing, or another kind.
pub uninterp spec fn docx_run_items(r: docx_rs::Run) -> Seq<RunSpec>;

/// What a paragraph holds as the parser reads it: its children in order,
/// each a run (with what it holds) or `None` for another kind.
pub uninterp spec fn docx_paragraph_parts(p: docx_rs::Paragraph) -> Seq<Option<Seq<RunSpec>>>;

/// What a table cell holds as the parser reads it: its contents in order,
/// each a paragraph (with what it holds) or `None` for another kind.
pub uninterp spec fn docx_cell_contents(c: docx_rs::TableCell) -> Seq<
    Option<Seq<Option<Seq<RunSpec>>>>,
>;

/// What a table holds as the parser reads it: its rows in order, each with
/// its cells in order (with what they hold).
pub uninterp spec fn docx_table_rows(t: docx_rs::Table) -> Seq<
    Seq<Seq<Option<Seq<Option<Seq<RunSpec>>>>>>,
>;

/// The `children` of a `docx_rs::Paragraph`, in order: runs, or `None` for
/// other kinds; entry `i` stands for part `i` of `docx_paragraph_parts`.
#[verifier::external_body]
fn paragraph_runs(p: &docx_rs::Paragraph) -> (parts: Vec<Option<&docx_rs::Run>>)
    ensures
        parts@.len() == docx_paragraph_parts(*p).len(),
        forall|i: int| 0 <= i < parts@.len() ==> match #[trigger] parts@[i] {
            Some(r) => docx_paragraph_parts(*p)[i] == Some(docx_run_items(*r)),
            None => docx_paragraph_parts(*p)[i] is None,
        },
{
    p.children.iter().map(|c| match c {
        docx_rs::ParagraphChild::Run(r) => Some(&**r),
        _ => None,
    }).collect()
}

/// The `children` of a `docx_rs::Run`, in order: text (its content),
/// drawings, others; they are `docx_run_items` of the run.
#[verifier::external_body]
fn run_items(r: &docx_rs::Run) -> (items: Vec<RunItem>)
    ensures
        items@.map_values(|x: RunItem| x@) == docx_run_items(*r),
{
    r.children.iter().map(|c| match c {
        docx_rs::RunChild::Text(t) => RunItem::Text(t.text.clone()),
        docx_rs::RunChild::Drawing(_) => RunItem::Drawing(Drawing),
        _ => RunItem::Other,
    }).collect()
}

/// The `rows` of a `docx_rs::Table`, in order, each with its `cells` in
/// order; cell `j` of row `i` holds entry `j` of row `i` of
/// `docx_table_rows`.
#[verifier::external_body]
fn table_rows(t: &docx_rs::Table) -> (rows: Vec<Vec<&docx_rs::TableCell>>)
    ensures
        rows@.len() == docx_table_rows(*t).len(),
        forall|i: int| 0 <= i < rows@.len() ==> (#[trigger] rows@[i])@.len() == docx_table_rows(
            *t,
        )[i].len(),
        forall|i: int, j: int|
            0 <= i < rows@.len() && 0 <= j < rows@[i]@.len() ==> docx_cell_contents(
                *#[trigger] rows@[i]@[j],
            ) == docx_table_rows(*t)[i][j],
{
    t.rows.iter().map(|docx_rs::TableChild::TableRow(row)| {
        row.cells.iter().map(|docx_rs::TableRowChild::TableCell(c)| c).collect()
    }).collect()
}

/// The `children` of a `docx_rs::TableCell`, in order: paragraphs, or
/// `None` for other kinds; entry `k` stands for entry `k` of
/// `docx_cell_contents`.
#[verifier::external_body]
fn cell_paragraphs(c: &docx_rs::TableCell) -> (contents: Vec<Option<&docx_rs::Paragraph>>)
    ensures
        contents@.len() == docx_cell_contents(*c).len(),
        forall|k: int| 0 <= k < contents@.len() ==> match #[trigger] contents@[k] {
            Some(p) => docx_cell_contents(*c)[k] == Some(docx_paragraph_parts(*p)),
            None => docx_cell_contents(*c)[k] is None,
        },
{
    c.children.iter().map(|x| match x {
        docx_rs::TableCellContent::Paragraph(p) => Some(&**p),
        _ => None,
    }).collect()
}

/// A paragraph as the parser reads it.
fn paragraph_model(p: &docx_rs::Paragraph) -> (m: DocParagraph)
    ensures
        m@ == docx_paragraph_parts(*p),
{
    let ghost spec_parts = docx_paragraph_parts(*p);
    let parts = paragraph_runs(p);
    let mut children: Vec<ParagraphPart> = Vec::new();
    let mut i: usize = 0;
    while i < parts.len()
        invariant
            0 <= i <= parts@.len(),
            spec_parts == docx_paragraph_parts(*p),
            parts@.len() == spec_parts.len(),
            forall|k: int| 0 <= k < parts@.len() ==> match #[trigger] parts@[k] {
                Some(r) => spec_parts[k] == Some(docx_run_items(*r)),
                None => spec_parts[k] is None,
            },
            children@.len() == i,
            children@.map_values(|c: ParagraphPart| part_view(c)) == spec_parts.take(i as int),
        decreases parts@.len() - i,
    {
        let ghost before = children@;
        let part = match parts[i] {
            Some(run) => ParagraphPart::Run(run_items(run)),
            None => ParagraphPart::Other,
        };
        assert(part_view(part) == spec_parts[i as int]);
        children.push(part);
        assert(spec_parts.take(i + 1) =~= spec_parts.take(i as int).push(spec_parts[i as int]));
        assert(children@.map_values(|c: ParagraphPart| part_view(c)) =~= before.map_values(
            |c: ParagraphPart| part_view(c),
        ).push(part_view(part)));
        i = i + 1;
    }
    assert(spec_parts.take(i as int) =~= spec_parts);
    DocParagraph { children }
}

/// A table cell as the parser reads it.
fn cell_model(c: &docx_rs::TableCell) -> (m: DocCell)
    ensures
        m@ == docx_cell_contents(*c),
{
    let ghost spec_contents = docx_cell_contents(*c);
    let contents = cell_paragraphs(c);
    let mut children: Vec<CellContent> = Vec::new();
    let mut k: usize = 0;
    while k < contents.len()
        invariant
            0 <= k <= contents@.len(),
            spec_contents == docx_cell_contents(*c),
            contents@.len() == spec_contents.len(),
            forall|x: int| 0 <= x < contents@.len() ==> match #[trigger] contents@[x] {
                Some(p) => spec_contents[x] == Some(docx_paragraph_parts(*p)),
                None => spec_contents[x] is None,
            },
            children@.len() == k,
            children@.map_values(|x: CellContent| content_view(x)) == spec_contents.take(k as int),
        decreases contents@.len() - k,
    {
        let ghost before = children@;
        let content = match contents[k] {
            Some(p) => CellContent::Paragraph(paragraph_model(p)),
            None => CellContent::Other,
        };
        assert(content_view(content) == spec_contents[k as int]);
        children.push(content);
        assert(spec_contents.take(k + 1) =~= spec_contents.take(k as int).push(
            spec_contents[k as int],
        ));
        assert(children@.map_values(|x: CellContent| content_view(x)) =~= before.map_values(
            |x: CellContent| content_view(x),
        ).push(content_view(content)));
        k = k + 1;
    }
    assert(spec_contents.take(k as int) =~= spec_contents);
    DocCell { children }
}

/// A table as the parser reads it.
fn table_model(t: &docx_rs::Table) -> (m: DocTable)
    ensures
        m@ == docx_table_rows(*t),
{
    let ghost spec_rows = docx_table_rows(*t);
    let rows_in = table_rows(t);
    let mut rows: Vec<Vec<DocCell>> = Vec::new();
    let mut r: usize = 0;
    while r < rows_in.len()
        invariant
            0 <= r <= rows_in@.len(),
            spec_rows == docx_table_rows(*t),
            rows_in@.len() == spec_rows.len(),
            forall|i: int| 0 <= i < rows_in@.len() ==> (#[trigger] rows_in@[i])@.len()
                == spec_rows[i].len(),
            forall|i: int, j: int|
                0 <= i < rows_in@.len() && 0 <= j < rows_in@[i]@.len() ==> docx_cell_contents(
                    *#[trigger] rows_in@[i]@[j],
                ) == spec_rows[i][j],
            rows@.len() == r,
            rows@.map_values(|x: Vec<DocCell>| row_view(x@)) == spec_rows.take(r as int),
        decreases rows_in@.len() - r,
    {
        let ghost spec_row = spec_rows[r as int];
        let ghost row_in = rows_in@[r as int]@;
        assert(row_in.len() == spec_row.len());
        let mut cells: Vec<DocCell> = Vec::new();
        let mut c: usize = 0;
        while c < rows_in[r].len()
            invariant
                0 <= r < rows_in@.len(),
                row_in == rows_in@[r as int]@,
                0 <= c <= row_in.len(),
                row_in.len() == spec_row.len(),
                forall|j: int| 0 <= j < row_in.len() ==> docx_cell_contents(*#[trigger] row_in[j])
                    == spec_row[j],
                cells@.len() == c,
                row_view(cells@) == spec_row.take(c as int),
            decreases row_in.len() - c,
        {
            let ghost before = cells@;
            let cell = cell_model(rows_in[r][c]);
            assert(cell@ == spec_row[c as int]);
            cells.push(cell);
            assert(spec_row.take(c + 1) =~= spec_row.take(c as int).push(spec_row[c as int]));
            assert(row_view(cells@) =~= row_view(before).push(cell@));
            c = c + 1;
        }
        assert(spec_row.take(c as int) =~= spec_row);
        let ghost before_rows = rows@;
        let ghost new_row = row_view(cells@);
        rows.push(cells);
        assert(spec_rows.take(r + 1) =~= spec_rows.take(r as int).push(spec_rows[r as int]));
        assert(rows@.map_values(|x: Vec<DocCell>| row_view(x@)) =~= before_rows.map_values(
            |x: Vec<DocCell>| row_view(x@),
        ).push(new_row));
        r = r + 1;
    }
    assert(spec_rows.take(r as int) =~= spec_rows);
    DocTable { rows }
}

/// The message for a DOCX package that `docx_rs::read_docx` rejects with
/// error text `e`.
pub fn docx_parse_error(e: &str) -> (m: String)
    ensures
        m@ == "DOCX parse error: "@ + e@,
{
    let mut m = string_from("DOCX parse error: ");
    append_str(&mut m, e);
    m
}

/// The children of a document's body, in order, as the parser reads them.
pub fn body_children(d: &docx_rs::Docx) -> (body: Vec<BodyChild>)
    ensures
        body@.map_values(|c: BodyChild| c@) == docx_body(*d),
{
    let ghost spec_body = docx_body(*d);
    let children = document_children(d);
    let mut body: Vec<BodyChild> = Vec::new();
    let mut i: usize = 0;
    while i < children.len()
        invariant
            0 <= i <= children@.len(),
            spec_body == docx_body(*d),
            children@.len() == spec_body.len(),
            forall|k: int| 0 <= k < children@.len() ==> match #[trigger] children@[k] {
                BodyRef::Paragraph(p) => spec_body[k] == BodySpec::Paragraph(docx_paragraph_parts(*p)),
                BodyRef::Table(t) => spec_body[k] == BodySpec::Table(docx_table_rows(*t)),
                BodyRef::Other => spec_body[k] is Other,
            },
            body@.len() == i,
            body@.map_values(|c: BodyChild| c@) == spec_body.take(i as int),
        decreases children@.len() - i,
    {
        let ghost before = body@;
        let child = match children[i] {
            BodyRef::Paragraph(p) => BodyChild::Paragraph(paragraph_model(p)),
            BodyRef::Table(t) => BodyChild::Table(table_model(t)),
            BodyRef::Other => BodyChild::Other,
        };
        assert(child@ == spec_body[i as int]);
        body.push(child);
        assert(spec_body.take(i + 1) =~= spec_body.take(i as int).push(spec_body[i as int]));
        assert(body@.map_values(|c: BodyChild| c@) =~= before.map_values(|c: BodyChild| c@).push(
            child@,
        ));
        i = i + 1;
    }
    assert(spec_body.take(i as int) =~= spec_body);
    body
}

} // verus!
