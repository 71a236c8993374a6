//! Tokenizer for JSONPath expressions, with its behaviour stated and proved.
//!
//! - `chars`: UTF-8 widths, byte offsets and the white-space property.
//! - `path_reader`: a cursor over the input's characters that tracks byte offsets.
//! - `tokenizer`: tokens, the step-by-step `Tokenizer`, the `PreloadedTokenizer`,
//!   and the specification `lex_step` / `tokenize` they follow.
//! - `laws`: properties of the whole token stream.

pub mod chars;
pub mod path_reader;
pub mod tokenizer;
pub mod laws;
pub mod read_laws;
