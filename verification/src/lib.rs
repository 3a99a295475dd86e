//! Document and podcast-script processing for a desktop RAG assistant:
//! prompt building and script parsing, DOCX and PPTX text/table/image
//! extraction, table grid rendering, and audio data URLs.
pub mod text;
pub mod script;
pub mod xml_events;
pub mod slides;
pub mod document;
pub mod pptx;
pub mod grid;
pub mod media;
pub mod docx;
pub mod audio;
