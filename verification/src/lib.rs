//! Text-recognition pipeline pieces for an on-screen kanji overlay: merging of
//! detected text-region boxes, autoregressive sequence decoding of glyph
//! images into ranked token candidates, and dictionary-backed longest-match
//! segmentation of recognized lines.

pub mod actions;
pub mod boxes;
pub mod database;
pub mod decoder;
pub mod dict;
pub mod easy_ocr;
pub mod id_item;
pub mod jpn;
pub mod ocr;
pub mod strings;
pub mod ui_state;

pub use boxes::DetectedBox;
