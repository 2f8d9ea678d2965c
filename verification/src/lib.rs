//! Reading, writing and showing FITS files: header cards, the keyword table
//! of a header, the HDUs of a file with their images and tables, edited
//! copies of a file, and the choices a viewer makes about them.
#![allow(unused_imports)]

use vstd::prelude::*;

pub mod text;
pub mod numbers;
pub mod card;
pub mod card_laws;
pub mod header_map;
pub mod endian;
pub mod table;
pub mod hdu;
pub mod image;
pub mod pixels;
pub mod compressed;
pub mod table_hdu;
pub mod fits;
pub mod edit;
pub mod header_laws;
pub mod spectrum;
pub mod uri;
pub mod inspector;
pub mod file_laws;
pub mod rice;
pub mod tiles;
