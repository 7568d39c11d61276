//! The core of a screen-overlay OCR assistant: the incremental OCR job
//! scheduler and the spatial text reconciliation engine.
//!
//! A capture of a screen region is recognized into a hierarchical markup
//! document. This library parses that document into raw lines and words
//! ([`markup`]), merges the engine's per-glyph words to dictionary word
//! boundaries ([`tokenizer`]), recomputes pixel-accurate word positions from
//! measured glyph extents ([`layout`]), answers cursor hit-tests, formats
//! dictionary translations for a clicked word ([`translation`]), and decides
//! when to run OCR at all — debouncing triggers and guaranteeing at most one
//! job in flight with newest-request-wins cancellation ([`scheduler`]).
//!
//! Capture, image preprocessing, the OCR engine, the window system and the
//! GPU renderer are outside collaborators: the surrounding binary performs
//! that I/O and hands plain values in and out.

pub mod geometry;
pub mod languages;
pub mod layout;
pub mod markup;
pub mod scheduler;
pub mod tokenizer;
pub mod translation;
pub mod words;
