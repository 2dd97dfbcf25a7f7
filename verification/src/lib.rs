//! Text handling: colors and text attributes with their spans, lines of text set from
//! styled spans and split into paragraphs, bidirectional level adjustment and visual
//! reordering, cutting text into words for shaping, an editor over them with
//! reversible change records, text cursor motions, vi-mode helpers and key and event
//! handling, per-line result caches, rope-backed line storage, the on-disk font index
//! cache format, per-font codepoint support caching, font fallback locale selection,
//! font matching, the monospace fonts by script, fallback font search, and glyph pixel
//! conversion.

pub mod color;
pub mod attrs;
pub mod byte_io;
pub mod font_index;
pub mod codepoint_cache;
pub mod fallback;
pub mod render;
pub mod cached;
pub mod edit;
pub mod layout;
pub mod large_file;
pub mod editor;
pub mod rope_text;
pub mod strings;
pub mod buffer_line;
pub mod text_editor;
pub mod motion;
pub mod fallback_iter;
pub mod line_cache;
pub mod vi;
pub mod bidi_para;
pub mod rich_text;
pub mod font_matches;
pub mod vi_event;
pub mod monospace;
pub mod bidi_reorder;
pub mod shape_words;
