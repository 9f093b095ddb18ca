//! An editing engine for hOCR documents: an identity-addressed ordered forest,
//! the OCR element model with its property mini-language, and the import and
//! export of documents between a plain markup tree and the forest.

pub mod edit;
pub mod element;
pub mod export;
pub mod import;
pub mod markup;
pub mod number;
pub mod ocr_class;
pub mod property;
pub mod text;
pub mod tree;
