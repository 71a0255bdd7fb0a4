//! FeatherKey keyboard engine: the learned models, text navigation and
//! lexical indexes behind the keyboard, with their contracts.
pub mod text;
pub mod assoc;
pub mod counts;
pub mod nested;
pub mod context;
pub mod corrections;
pub mod vocab;
pub mod kernel;
pub mod layouts;
pub mod ffi_types;
pub mod recent;
pub mod edit_distance;
pub mod diagnostics;
pub mod fold;
pub mod keymap;
pub mod gesture_index;
pub mod cursor;
pub mod vocab_codec;
pub mod pair_sort;
pub mod dictionary;
pub mod replay;
pub mod propercase;
pub mod correction;
pub mod lexicon_packs;
pub mod candidates;
pub mod strip;
