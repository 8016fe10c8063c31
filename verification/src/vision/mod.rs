pub mod components;
pub mod layout;
pub mod ocr;
pub mod table;
