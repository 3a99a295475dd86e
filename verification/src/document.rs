//! What the document parsers produce: text sections for chunking and the
//! ordered elements (text, images, rendered tables) with their captions.
use vstd::prelude::*;
use crate::text::{decimal, push_decimal, str_chars, string_from, string_of};

verus! {

/// Images narrower than this many pixels are skipped.
pub const MIN_IMAGE_WIDTH: u32 = 100;

/// Images lower than this many pixels are skipped.
pub const MIN_IMAGE_HEIGHT: u32 = 50;

/// Saved image files smaller than this many bytes are discarded.
pub const MIN_IMAGE_BYTES: u64 = 1024;

/// A caption quotes at most this many characters of its context.
pub const CAPTION_CHARS: usize = 400;

/// A block of text to be chunked, with where it came from.
#[derive(Debug)]
pub struct TextBlock {
    pub text: String,
    pub metadata: String,
}

/// The kind of a parsed element.
#[derive(PartialEq, Eq, Structural, Clone, Copy, Debug)]
pub enum ElementKind {
    Text,
    Image,
    Table,
}

/// One element of a parsed document: text, or an image or rendered table
/// saved as a file in the media directory, with a caption.
#[derive(Debug)]
pub struct ParsedElement {
    pub kind: ElementKind,
    /// The text, or the caption of an image or table.
    pub content: String,
    /// The saved file's name within the media directory.
    pub media_path: Option<String>,
    pub metadata: String,
}

/// A parsed document: its title, its elements, and its text sections.
#[derive(Debug)]
pub struct ParsedDocument {
    pub title: String,
    pub elements: Vec<ParsedElement>,
    pub sections: Vec<TextBlock>,
}

/// The view of a text block.
pub struct BlockSpec {
    pub text: Seq<char>,
    pub metadata: Seq<char>,
}

/// The view of an element.
pub struct ElementSpec {
    pub kind: ElementKind,
    pub content: Seq<char>,
    pub media_path: Option<Seq<char>>,
    pub metadata: Seq<char>,
}

impl View for TextBlock {
    type V = BlockSpec;

    open spec fn view(&self) -> BlockSpec {
        BlockSpec { text: self.text@, metadata: self.metadata@ }
    }
}

impl View for ParsedElement {
    type V = ElementSpec;

    open spec fn view(&self) -> ElementSpec {
        ElementSpec {
            kind: self.kind,
            content: self.content@,
            media_path: match self.media_path {
                Some(p) => Some(p@),
                None => None,
            },
            metadata: self.metadata@,
        }
    }
}

pub open spec fn blocks_view(v: Seq<TextBlock>) -> Seq<BlockSpec> {
    v.map_values(|b: TextBlock| b@)
}

pub open spec fn elements_view(v: Seq<ParsedElement>) -> Seq<ElementSpec> {
    v.map_values(|e: ParsedElement| e@)
}

/// A text element.
pub open spec fn text_element(text: Seq<char>, metadata: Seq<char>) -> ElementSpec {
    ElementSpec { kind: ElementKind::Text, content: text, media_path: None, metadata }
}

/// Makes a text element.
pub fn new_text_element(text: &str, metadata: String) -> (e: ParsedElement)
    ensures
        e@ == text_element(text@, metadata@),
{
    ParsedElement { kind: ElementKind::Text, content: string_from(text), media_path: None, metadata }
}

/// The first `CAPTION_CHARS` characters of `context`.
pub open spec fn caption_prefix(context: Seq<char>) -> Seq<char> {
    if context.len() <= CAPTION_CHARS {
        context
    } else {
        context.take(CAPTION_CHARS as int)
    }
}

/// A caption: the context's first characters, or `fallback` when the
/// context is empty.
pub open spec fn caption_for(context: Seq<char>, fallback: Seq<char>) -> Seq<char> {
    if context.len() == 0 {
        fallback
    } else {
        caption_prefix(context)
    }
}

/// `context.chars().take(CAPTION_CHARS)`.
pub fn caption_of(context: &str) -> (c: String)
    ensures
        c@ == caption_prefix(context@),
{
    let v = str_chars(context);
    if v.len() <= CAPTION_CHARS {
        string_of(&v, 0, v.len())
    } else {
        string_of(&v, 0, CAPTION_CHARS)
    }
}

/// Whether a decoded image is large enough to keep.
pub open spec fn image_big_enough(width: u32, height: u32) -> bool {
    width >= MIN_IMAGE_WIDTH && height >= MIN_IMAGE_HEIGHT
}

/// Whether a decoded image is large enough to keep.
pub fn is_image_big_enough(width: u32, height: u32) -> (b: bool)
    ensures
        b == image_big_enough(width, height),
{
    !(width < MIN_IMAGE_WIDTH || height < MIN_IMAGE_HEIGHT)
}

/// Whether a saved image file is large enough to keep.
pub fn is_file_big_enough(size: u64) -> (b: bool)
    ensures
        b == (size >= MIN_IMAGE_BYTES),
{
    !(size < MIN_IMAGE_BYTES)
}

/// An image or table saved to the media directory, ready to become an
/// element once the file is known to be kept.
#[derive(Debug)]
pub struct MediaRequest {
    /// Where the source lies (a path inside the archive), if it comes from one.
    pub source: String,
    /// The file name to save under, in the media directory.
    pub file_name: String,
    pub caption: String,
    pub metadata: String,
}

/// The view of a media request.
pub struct MediaSpec {
    pub source: Seq<char>,
    pub file_name: Seq<char>,
    pub caption: Seq<char>,
    pub metadata: Seq<char>,
}

impl View for MediaRequest {
    type V = MediaSpec;

    open spec fn view(&self) -> MediaSpec {
        MediaSpec {
            source: self.source@,
            file_name: self.file_name@,
            caption: self.caption@,
            metadata: self.metadata@,
        }
    }
}

/// The element for a saved media file.
pub open spec fn media_element(kind: ElementKind, m: MediaSpec) -> ElementSpec {
    ElementSpec { kind, content: m.caption, media_path: Some(m.file_name), metadata: m.metadata }
}

/// The element for a kept image or table file.
pub fn new_media_element(kind: ElementKind, m: &MediaRequest) -> (e: ParsedElement)
    ensures
        e@ == media_element(kind, m@),
{
    ParsedElement {
        kind,
        content: m.caption.clone(),
        media_path: Some(m.file_name.clone()),
        metadata: m.metadata.clone(),
    }
}

/// The sections and elements gathered so far while parsing a document.
pub struct DocBuilder {
    pub sections: Vec<TextBlock>,
    pub elements: Vec<ParsedElement>,
}

/// The view of a builder: sections and elements so far.
pub struct BuilderSpec {
    pub sections: Seq<BlockSpec>,
    pub elements: Seq<ElementSpec>,
}

impl View for DocBuilder {
    type V = BuilderSpec;

    open spec fn view(&self) -> BuilderSpec {
        BuilderSpec { sections: blocks_view(self.sections@), elements: elements_view(self.elements@) }
    }
}

/// `e` names the same media file as some element of `es`.
pub open spec fn has_media_path(es: Seq<ElementSpec>, p: Option<Seq<char>>) -> bool {
    exists|i: int| 0 <= i < es.len() && #[trigger] es[i].media_path == p
}

impl DocBuilder {
    /// No sections and no elements yet.
    pub fn new() -> (b: DocBuilder)
        ensures
            b@.sections == Seq::<BlockSpec>::empty(),
            b@.elements == Seq::<ElementSpec>::empty(),
    {
        let b = DocBuilder { sections: Vec::new(), elements: Vec::new() };
        assert(blocks_view(b.sections@) =~= Seq::<BlockSpec>::empty());
        assert(elements_view(b.elements@) =~= Seq::<ElementSpec>::empty());
        b
    }

    /// Adds a section.
    pub fn push_section(&mut self, text: String, metadata: String)
        ensures
            final(self)@.sections == old(self)@.sections.push(BlockSpec { text: text@, metadata: metadata@ }),
            final(self)@.elements == old(self)@.elements,
    {
        let ghost before = self.sections@;
        self.sections.push(TextBlock { text, metadata });
        assert(blocks_view(self.sections@) =~= blocks_view(before).push(
            BlockSpec { text: text@, metadata: metadata@ },
        ));
    }

    /// Adds an element.
    pub fn push_element(&mut self, e: ParsedElement)
        ensures
            final(self)@.elements == old(self)@.elements.push(e@),
            final(self)@.sections == old(self)@.sections,
    {
        let ghost before = self.elements@;
        self.elements.push(e);
        assert(elements_view(self.elements@) =~= elements_view(before).push(e@));
    }

    /// Adds an element unless one with the same media path is there already.
    pub fn push_element_unique(&mut self, e: ParsedElement)
        ensures
            final(self)@.elements == if has_media_path(old(self)@.elements, e@.media_path) {
                old(self)@.elements
            } else {
                old(self)@.elements.push(e@)
            },
            final(self)@.sections == old(self)@.sections,
    {
        let mut i: usize = 0;
        let ghost es = self@.elements;
        while i < self.elements.len()
            invariant
                0 <= i <= self.elements@.len(),
                es == self@.elements,
                forall|j: int| 0 <= j < i ==> es[j].media_path != e@.media_path,
            decreases self.elements@.len() - i,
        {
            assert(es[i as int] == self.elements@[i as int]@);
            if same_media_path(&self.elements[i].media_path, &e.media_path) {
                return;
            }
            i = i + 1;
        }
        self.push_element(e);
    }

    /// The finished document.
    pub fn finish(self, title: String) -> (d: ParsedDocument)
        ensures
            d.title@ == title@,
            blocks_view(d.sections@) == self@.sections,
            elements_view(d.elements@) == self@.elements,
    {
        ParsedDocument { title, elements: self.elements, sections: self.sections }
    }
}

/// Whether two optional paths are equal.
fn same_media_path(a: &Option<String>, b: &Option<String>) -> (r: bool)
    ensures
        r == (match a {
            Some(p) => Some(p@),
            None => None,
        } == match b {
            Some(p) => Some(p@),
            None => None,
        }),
{
    match (a, b) {
        (Some(x), Some(y)) => crate::script::str_eq(x.as_str(), y.as_str()),
        (None, None) => true,
        _ => false,
    }
}

/// `prefix` followed by the decimal digits of `n`.
pub open spec fn tagged(prefix: Seq<char>, n: nat) -> Seq<char> {
    prefix + decimal(n)
}

/// Makes `prefix` followed by the decimal digits of `n`.
pub fn new_tagged(prefix: &str, n: usize) -> (s: String)
    ensures
        s@ == tagged(prefix@, n as nat),
{
    let mut s = string_from(prefix);
    push_decimal(&mut s, n);
    s
}

/// A table to render as an image, with its text for the fallback element
/// and the section.
#[derive(Debug)]
pub struct TableRequest {
    pub rows: Vec<Vec<String>>,
    pub text: String,
    pub media: MediaRequest,
}

impl DocBuilder {
    /// Adds a table: its text as a section, and as element the rendered
    /// image when it was kept, or else its text.
    pub fn add_table(&mut self, req: &TableRequest, kept: bool)
        ensures
            final(self)@.sections == old(self)@.sections.push(
                BlockSpec { text: req.text@, metadata: req.media.metadata@ },
            ),
            final(self)@.elements == old(self)@.elements.push(
                if kept {
                    media_element(ElementKind::Table, req.media@)
                } else {
                    text_element(req.text@, req.media.metadata@)
                },
            ),
    {
        self.push_section(req.text.clone(), req.media.metadata.clone());
        if kept {
            self.push_element(new_media_element(ElementKind::Table, &req.media));
        } else {
            self.push_element(new_text_element(req.text.as_str(), req.media.metadata.clone()));
        }
    }

    /// Adds the element of an image when its file was kept.
    pub fn add_image(&mut self, req: &MediaRequest, kept: bool)
        ensures
            final(self)@.sections == old(self)@.sections,
            final(self)@.elements == if kept {
                old(self)@.elements.push(media_element(ElementKind::Image, req@))
            } else {
                old(self)@.elements
            },
    {
        if kept {
            self.push_element(new_media_element(ElementKind::Image, req));
        }
    }

    /// Adds the element of an image when its file was kept and no element
    /// names the same file yet.
    pub fn add_image_unique(&mut self, req: &MediaRequest, kept: bool)
        ensures
            final(self)@.sections == old(self)@.sections,
            final(self)@.elements == if kept && !has_media_path(
                old(self)@.elements,
                Some(req.file_name@),
            ) {
                old(self)@.elements.push(media_element(ElementKind::Image, req@))
            } else {
                old(self)@.elements
            },
    {
        if kept {
            self.push_element_unique(new_media_element(ElementKind::Image, req));
        }
    }
}

/// A caption quotes at most `CAPTION_CHARS` characters, and they are the
/// first characters of its context.
pub proof fn lemma_caption_is_short_prefix(context: Seq<char>)
    ensures
        caption_prefix(context).len() <= CAPTION_CHARS,
        caption_prefix(context) == context.take(caption_prefix(context).len() as int),
{
    if context.len() <= CAPTION_CHARS {
        assert(context.take(context.len() as int) =~= context);
    }
}

/// No two elements name the same media file.
pub open spec fn distinct_media(es: Seq<ElementSpec>) -> bool {
    forall|i: int, j: int|
        0 <= i < j < es.len() && (#[trigger] es[i]).media_path is Some ==> es[i].media_path
            != (#[trigger] es[j]).media_path
}

/// Adding elements only when their media file is new keeps the media files
/// of a document distinct.
pub proof fn lemma_unique_push_keeps_media_distinct(es: Seq<ElementSpec>, e: ElementSpec)
    requires
        distinct_media(es),
    ensures
        distinct_media(
            if has_media_path(es, e.media_path) {
                es
            } else {
                es.push(e)
            },
        ),
{
    if !has_media_path(es, e.media_path) {
        let n = es.push(e);
        assert forall|i: int, j: int|
            0 <= i < j < n.len() && (#[trigger] n[i]).media_path is Some implies n[i].media_path
                != (#[trigger] n[j]).media_path by {
            if j == es.len() {
                assert(n[i] == es[i]);
                if es[i].media_path == e.media_path {
                    assert(has_media_path(es, e.media_path));
                }
            } else {
                assert(n[i] == es[i] && n[j] == es[j]);
            }
        }
    }
}

} // verus!
