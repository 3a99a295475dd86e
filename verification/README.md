# genhat

The document and podcast-script logic of a desktop RAG assistant, verified
with Verus.

- `src/script.rs`: the podcast prompt, extraction of the JSON array from an
  LLM reply, and the dialogue lines (speaker, voice, text).
- `src/slides.rs`, `src/pptx.rs`, `src/xml_events.rs`: PPTX slide text,
  picture references and tables from the slide XML; slide order,
  relationships, and what each slide adds to the document.
- `src/docx.rs`: the DOCX body as paragraphs and tables, their text, and
  what each adds to the document.
- `src/grid.rs`, `src/media.rs`: tables drawn as grid images, and the PNG
  files kept for tables and embedded images.
- `src/document.rs`: sections, elements, captions, and the builder that
  collects them.
- `src/audio.rs`: audio data URLs and task-router requests.
- `app/`: file and archive access, saving media files, and the audio
  commands. It also makes the `docx_rs::read_docx` call: that call panics
  on some malformed packages, and no test written in `src/` can rule those
  out, so the library takes the document it reads (`docx::body_children`).
