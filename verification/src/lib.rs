//! Extraction of airports, navigation aids and fixes from aeronautical data
//! files, with exact coordinate arithmetic.

pub mod aixm;
pub mod error;
pub mod geo;
pub mod sct;
pub mod text;
pub mod txt_data;
pub mod xml;
pub mod zip_util;
