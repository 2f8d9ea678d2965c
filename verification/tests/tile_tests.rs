use fitslook::compressed::{parse_compressed_fits_image, TileError};
use fitslook::header_map::HeaderMap;

fn tiled_header(nx: usize, ny: usize, zbitpix: i32, zcmp: &str, tform: &str, row_bytes: usize, rows: usize) -> HeaderMap {
    let mut m = HeaderMap::new();
    m.insert("ZNAXIS1".to_string(), nx.to_string());
    m.insert("ZNAXIS2".to_string(), ny.to_string());
    m.insert("ZBITPIX".to_string(), zbitpix.to_string());
    m.insert("ZCMPTYPE".to_string(), zcmp.to_string());
    m.insert("TFORM1".to_string(), tform.to_string());
    m.insert("NAXIS1".to_string(), row_bytes.to_string());
    m.insert("NAXIS2".to_string(), rows.to_string());
    m
}

fn rice_params(m: &mut HeaderMap, blocksize: u32, bytepix: u32) {
    m.insert("ZNAME1".to_string(), "BLOCKSIZE".to_string());
    m.insert("ZVAL1".to_string(), blocksize.to_string());
    m.insert("ZNAME2".to_string(), "BYTEPIX".to_string());
    m.insert("ZVAL2".to_string(), bytepix.to_string());
}

#[test]
fn nocompress_single_pixel() {
    let m = tiled_header(1, 1, 8, "NOCOMPRESS", "1PB(1)", 8, 1);
    let table = [0u8, 0, 0, 1, 0, 0, 0, 0, 42];
    let img = parse_compressed_fits_image(&m, &table).expect("an image");
    assert_eq!(img.data, vec![42]);
    assert_eq!((img.nx, img.ny, img.zbitpix), (1, 1, 8));
}

#[test]
fn nocompress_row_tiles_with_theap() {
    let mut m = tiled_header(2, 2, 16, "NOCOMPRESS", "1PI(2)", 8, 2);
    m.insert("THEAP".to_string(), "16".to_string());
    let table = [
        0u8, 0, 0, 2, 0, 0, 0, 0, // row 0: 2 elements at 0
        0, 0, 0, 2, 0, 0, 0, 4, // row 1: 2 elements at 4
        0, 1, 0xff, 0xfe, 0x12, 0x34, 0, 5,
    ];
    let img = parse_compressed_fits_image(&m, &table).expect("an image");
    assert_eq!(img.data, vec![0, 1, 0xff, 0xfe, 0x12, 0x34, 0, 5]);
    assert_eq!((img.nx, img.ny, img.zbitpix), (2, 2, 16));
}

#[test]
fn nocompress_wide_descriptor() {
    let m = tiled_header(1, 1, 8, "NOCOMPRESS", "1QB(1)", 16, 1);
    let mut table = vec![0u8; 16];
    table[7] = 1;
    table[15] = 1;
    table.extend([9u8, 77]);
    let img = parse_compressed_fits_image(&m, &table).expect("an image");
    assert_eq!(img.data, vec![77]);
}

#[test]
fn rice_low_entropy_block() {
    let mut m = tiled_header(2, 2, 8, "RICE_1", "1PB(2)", 8, 1);
    m.insert("ZTILE1".to_string(), "2".to_string());
    m.insert("ZTILE2".to_string(), "2".to_string());
    rice_params(&mut m, 32, 1);
    let table = [0u8, 0, 0, 2, 0, 0, 0, 0, 10, 0];
    let img = parse_compressed_fits_image(&m, &table).expect("an image");
    assert_eq!(img.data, vec![10, 10, 10, 10]);
}

#[test]
fn rice_coded_differences() {
    // Start 5, split 0, differences 0, +1, -2 coded as 1, 001, 0001.
    let mut m = tiled_header(3, 1, 8, "RICE_1", "1PB(3)", 8, 1);
    rice_params(&mut m, 32, 1);
    let table = [0u8, 0, 0, 3, 0, 0, 0, 0, 5, 0x32, 0x20];
    let img = parse_compressed_fits_image(&m, &table).expect("an image");
    assert_eq!(img.data, vec![5, 6, 4]);
}

#[test]
fn rice_short_pixels_are_sign_extended() {
    let mut m = tiled_header(2, 1, 32, "RICE_1", "1PB(3)", 8, 1);
    rice_params(&mut m, 32, 2);
    let table = [0u8, 0, 0, 3, 0, 0, 0, 0, 0xff, 0xff, 0];
    let img = parse_compressed_fits_image(&m, &table).expect("an image");
    assert_eq!(img.data, vec![0xff; 8]);
    let mut m16 = tiled_header(2, 1, 16, "RICE_1", "1PB(3)", 8, 1);
    rice_params(&mut m16, 32, 2);
    let img = parse_compressed_fits_image(&m16, &table).expect("an image");
    assert_eq!(img.data, vec![0xff; 4]);
}

#[test]
fn rice_default_parameters() {
    // BYTEPIX 4 and BLOCKSIZE 32 when no ZNAMEn gives them.
    let m = tiled_header(1, 1, 32, "RICE_1", "1PB(5)", 8, 1);
    let table = [0u8, 0, 0, 5, 0, 0, 0, 0, 0, 0, 1, 2, 0];
    let img = parse_compressed_fits_image(&m, &table).expect("an image");
    assert_eq!(img.data, vec![0, 0, 1, 2]);
}

#[test]
fn tiles_that_are_not_read() {
    let table = [0u8, 0, 0, 1, 0, 0, 0, 0, 42];
    let floats = tiled_header(1, 1, -32, "RICE_1", "1PB(1)", 8, 1);
    assert_eq!(parse_compressed_fits_image(&floats, &table).unwrap_err(), TileError::Unsupported);
    let mut narrow = tiled_header(1, 1, 8, "NOCOMPRESS", "1PB(1)", 8, 1);
    narrow.insert("ZTILE1".to_string(), "2".to_string());
    assert_eq!(parse_compressed_fits_image(&narrow, &table).unwrap_err(), TileError::Unsupported);
    let no_descriptor = tiled_header(1, 1, 8, "NOCOMPRESS", "1B", 8, 1);
    assert_eq!(parse_compressed_fits_image(&no_descriptor, &table).unwrap_err(), TileError::Unsupported);
    let short_heap = tiled_header(1, 1, 16, "NOCOMPRESS", "1PI(1)", 8, 1);
    assert_eq!(parse_compressed_fits_image(&short_heap, &table).unwrap_err(), TileError::Unsupported);
    let beyond = tiled_header(1, 2, 8, "NOCOMPRESS", "1PB(1)", 8, 1);
    assert_eq!(parse_compressed_fits_image(&beyond, &table).unwrap_err(), TileError::Unsupported);
}
