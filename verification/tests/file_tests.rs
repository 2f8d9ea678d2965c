use std::collections::BTreeMap;
use std::io::Write;

use fitslook::card::HeaderCard;
use fitslook::compressed::{parse_compressed_fits_image, tile_from_inflated, TileError};
use fitslook::edit::{build_edited_file, edited_file_name, insert_before_end, EditError};
use fitslook::fits::{parse_fits, FitsError, BLOCK_SIZE};
use fitslook::header_map::HeaderMap;
use fitslook::image::{image_layout_of, squeezed_axes_of, ImageLayout, PixelBlock};
use fitslook::pixels::{pixel_words, read_pixels, PixelWord};
use fitslook::table::{parse_bintable_col_sizes, read_ascii_row, read_bintable_cell, TableCell};

fn header(cards: &[(&str, &str, &str)]) -> Vec<u8> {
    let mut h = Vec::new();
    for (k, v, c) in cards {
        h.extend_from_slice(HeaderCard::format_card(k, v, c).as_bytes());
    }
    h.extend_from_slice(HeaderCard::format_card("END", "", "").as_bytes());
    let pad = BLOCK_SIZE - (h.len() % BLOCK_SIZE);
    h.resize(h.len() + pad, b' ');
    h
}

fn padded_data(mut d: Vec<u8>) -> Vec<u8> {
    let rem = d.len() % BLOCK_SIZE;
    if rem != 0 {
        d.resize(d.len() + BLOCK_SIZE - rem, 0);
    }
    d
}

fn sample_file() -> Vec<u8> {
    let mut bytes = header(&[
        ("SIMPLE", "T", "Standard FITS format"),
        ("BITPIX", "8", "8-bit unsigned int"),
        ("NAXIS", "2", "2D image"),
        ("NAXIS1", "10", "10 pixels wide"),
        ("NAXIS2", "10", "10 pixels high"),
        ("OBJECT", "'Test Obj'", "Original object"),
    ]);
    bytes.extend(padded_data(vec![42u8; 100]));
    bytes
}

fn chars(s: &str) -> Vec<char> {
    s.chars().collect()
}

#[test]
fn test_save_edited_to_new_file() {
    let orig = sample_file();
    let doc = parse_fits(&orig).expect("Should open test fits file");
    let mut cards = doc.hdus[0].cards_list.clone();
    let end_pos = cards.iter().position(|c| c.keyword == "END").unwrap_or(cards.len());
    cards.insert(end_pos, HeaderCard::new("MYKEY", "'CUSTOM_VALUE'", "User added comment"));

    let mut updated_cards_per_hdu = BTreeMap::new();
    updated_cards_per_hdu.insert(0, cards);

    let edited_name = edited_file_name("test_sample_fitslook");
    assert!(edited_name.contains("_edited.fits"));
    assert_ne!(edited_name, "test_sample_fitslook.fits");

    let edited = build_edited_file(&orig, &doc.hdus, &updated_cards_per_hdu)
        .expect("Should save edited fits file");
    let doc_edited = parse_fits(&edited).expect("Should open edited fits file");
    let mykey = doc_edited.hdus[0].header_cards.get("MYKEY");
    assert_eq!(mykey, Some(&"CUSTOM_VALUE".to_string()));
}

#[test]
fn reading_a_simple_image() {
    let doc = parse_fits(&sample_file()).expect("a file");
    assert_eq!(doc.hdus.len(), 1);
    let h = &doc.hdus[0];
    assert_eq!(h.index, 0);
    assert_eq!(h.name, "PRIMARY");
    assert!(h.is_image);
    assert_eq!(h.shape, vec![10, 10]);
    assert_eq!(h.data_offset, 2880);
    assert_eq!(h.data_len, 100);
    assert_eq!(h.header_cards.get("OBJECT"), Some(&"Test Obj".to_string()));
    assert_eq!(h.header_cards.get("NAXIS1"), Some(&"10".to_string()));
    assert_eq!(h.cards_list.len(), 7);
    assert_eq!(h.cards_list[6].keyword, "END");
    assert!(h.header_text.starts_with("SIMPLE  = T"));
    assert_eq!(h.header_text.lines().count(), 6);
    let px = doc.pixels[0].as_ref().expect("pixels");
    assert_eq!(px.count, 100);
    assert_eq!(px.bitpix, 8);
    assert_eq!(px.data, vec![42u8; 100]);
    assert_eq!(px.layout, ImageLayout::Image2D { nx: 10, ny: 10 });
    assert!(doc.tables[0].is_none());
}

#[test]
fn unreadable_files_are_refused() {
    assert_eq!(parse_fits(&[]).unwrap_err(), FitsError::EmptyOrInvalid);
    assert_eq!(parse_fits(&vec![b' '; 2880]).unwrap_err(), FitsError::EmptyOrInvalid);
    let mut no_keywords = vec![b' '; 2880];
    no_keywords[0..3].copy_from_slice(b"END");
    assert_eq!(parse_fits(&no_keywords).unwrap_err(), FitsError::UnparsableHeader);
    assert_eq!(FitsError::EmptyOrInvalid.message(), "Empty or invalid FITS file");
    assert_eq!(FitsError::UnparsableHeader.message(), "Could not parse FITS header");
}

#[test]
fn a_header_running_past_the_end_of_the_file() {
    let mut bytes = Vec::new();
    bytes.extend_from_slice(HeaderCard::format_card("SIMPLE", "T", "").as_bytes());
    bytes.extend_from_slice(HeaderCard::format_card("NAXIS", "0", "").as_bytes());
    assert_eq!(parse_fits(&bytes).unwrap_err(), FitsError::EmptyOrInvalid);
}

fn table_file() -> Vec<u8> {
    let mut bytes = header(&[("SIMPLE", "T", ""), ("BITPIX", "8", ""), ("NAXIS", "0", "")]);
    bytes.extend(header(&[
        ("XTENSION", "'BINTABLE'", ""),
        ("BITPIX", "8", ""),
        ("NAXIS", "2", ""),
        ("NAXIS1", "15", ""),
        ("NAXIS2", "2", ""),
        ("PCOUNT", "0", ""),
        ("GCOUNT", "1", ""),
        ("TFIELDS", "3", ""),
        ("TTYPE1", "'ID'", ""),
        ("TFORM1", "'1J'", ""),
        ("TTYPE2", "'FLUX'", ""),
        ("TFORM2", "'1D'", ""),
        ("TFORM3", "'3A'", ""),
        ("EXTNAME", "'EVENTS'", ""),
    ]));
    let mut data = Vec::new();
    for (id, flux, tag) in [(7i32, 1.5f64, b"abc"), (-2, -0.25, b"xy ")] {
        data.extend_from_slice(&id.to_be_bytes());
        data.extend_from_slice(&flux.to_bits().to_be_bytes());
        data.extend_from_slice(tag);
    }
    bytes.extend(padded_data(data));
    bytes
}

fn text(s: &str) -> TableCell {
    TableCell::Text(s.to_string())
}

fn cell_text(c: &TableCell) -> String {
    match c {
        TableCell::Text(s) => s.clone(),
        TableCell::Singles(v) => format!("{:?}", v),
        TableCell::Doubles(v) => format!("{:?}", v),
    }
}

#[test]
fn reading_a_binary_table() {
    let doc = parse_fits(&table_file()).expect("a file");
    assert_eq!(doc.hdus.len(), 2);
    let h = &doc.hdus[1];
    assert_eq!(h.name, "EVENTS");
    assert!(!h.is_image);
    assert_eq!(h.data_len, 30);
    assert_eq!(h.data_offset, 2 * 2880);
    let t = doc.tables[1].as_ref().expect("a table");
    assert_eq!(t.columns, vec!["ID".to_string(), "FLUX".to_string(), "COL_3".to_string()]);
    assert_eq!(t.rows.len(), 2);
    let row0: Vec<String> = t.rows[0].iter().map(cell_text).collect();
    assert_eq!(row0[0], "7");
    assert_eq!(row0[2], "abc");
    match &t.rows[0][1] {
        TableCell::Doubles(v) => assert_eq!(v, &vec![1.5f64.to_bits()]),
        other => panic!("unexpected cell {:?}", other),
    }
    assert_eq!(cell_text(&t.rows[1][0]), "-2");
    assert_eq!(cell_text(&t.rows[1][2]), "xy");
    assert!(doc.pixels[1].is_none());
    assert_eq!(doc.hdus[0].name, "PRIMARY");
    assert!(doc.pixels[0].is_none());
}

#[test]
fn bintable_column_sizes() {
    let forms: Vec<String> =
        ["1J", "2E", "10A", "D", "", "3x", "2P", "1Q", "4M", "2Z", "zzJ", " 2I "]
            .iter()
            .map(|s| s.to_string())
            .collect();
    assert_eq!(parse_bintable_col_sizes(&forms), vec![4, 8, 10, 8, 0, 3, 8, 16, 64, 8, 4, 4]);
}

#[test]
fn bintable_cells() {
    let j: Vec<u8> = [1i32, -1].iter().flat_map(|v| v.to_be_bytes()).collect();
    assert_eq!(cell_text(&read_bintable_cell(&j, &chars("2J"))), "1, -1");
    assert_eq!(cell_text(&read_bintable_cell(&j[..4], &chars("2J"))), "1");
    let k = (-5i64).to_be_bytes();
    assert_eq!(cell_text(&read_bintable_cell(&k, &chars("K"))), "-5");
    let i = (-300i16).to_be_bytes();
    assert_eq!(cell_text(&read_bintable_cell(&i, &chars("1I"))), "-300");
    assert_eq!(cell_text(&read_bintable_cell(&[1, 255], &chars("2B"))), "1, 255");
    assert_eq!(cell_text(&read_bintable_cell(b"TF", &chars("2L"))), "T, F");
    assert_eq!(cell_text(&read_bintable_cell(b"  hi  ", &chars("6a"))), "hi");
    assert_eq!(cell_text(&read_bintable_cell(&[0; 16], &chars("1M"))), "<16 bytes>");
    assert_eq!(cell_text(&read_bintable_cell(&[], &chars("1J"))), "");
    assert_eq!(cell_text(&read_bintable_cell(&[1, 2], &chars("  "))), "");
    let e: Vec<u8> = 2.5f32.to_bits().to_be_bytes().to_vec();
    match read_bintable_cell(&e, &chars("E")) {
        TableCell::Singles(v) => assert_eq!(v, vec![2.5f32.to_bits()]),
        other => panic!("unexpected cell {:?}", other),
    }
}

#[test]
fn ascii_table_rows_split_at_blanks() {
    let row = read_ascii_row(b"  12  abc 3.5 ");
    let cells: Vec<String> = row.iter().map(cell_text).collect();
    assert_eq!(cells, vec!["12", "abc", "3.5"]);
    assert!(read_ascii_row(b"    ").is_empty());
}

#[test]
fn image_layouts() {
    assert_eq!(squeezed_axes_of(&[1, 5, 1, 3]), vec![5, 3]);
    assert_eq!(image_layout_of(&[100], 100), ImageLayout::Spectrum1D);
    assert_eq!(image_layout_of(&[4, 3], 12), ImageLayout::Image2D { nx: 4, ny: 3 });
    assert_eq!(image_layout_of(&[4, 3, 2], 24), ImageLayout::Cube3D { nx: 4, ny: 3, nz: 2 });
    assert_eq!(image_layout_of(&[4, 1, 3], 12), ImageLayout::Image2D { nx: 4, ny: 3 });
}

#[test]
fn edited_names() {
    assert_eq!(edited_file_name("m31"), "m31_edited.fits");
    assert_eq!(edited_file_name("m31_edited"), "m31_edited_edited.fits");
    assert!(edited_file_name("m31_edited").ends_with("_edited.fits"));
}

#[test]
fn edits_need_the_original_data() {
    let orig = sample_file();
    let doc = parse_fits(&orig).expect("a file");
    let short = &orig[..2880 + 50];
    let none = BTreeMap::new();
    assert_eq!(build_edited_file(short, &doc.hdus, &none).unwrap_err(), EditError::DataOutOfRange { hdu: 0 });
    let same = build_edited_file(&orig, &doc.hdus, &none).expect("a copy");
    assert_eq!(same, orig);
}

#[test]
fn an_edit_without_end_gets_one() {
    let orig = sample_file();
    let doc = parse_fits(&orig).expect("a file");
    let mut updated = BTreeMap::new();
    updated.insert(0usize, vec![HeaderCard::new("SIMPLE", "T", ""), HeaderCard::new("NAXIS", "0", "")]);
    let edited = build_edited_file(&orig, &doc.hdus, &updated).expect("a file");
    let head = String::from_utf8(edited[..240].to_vec()).unwrap();
    assert_eq!(head, format!("{:<80}{:<80}{:<80}", "SIMPLE  = T", "NAXIS   = 0", "END"));
    assert_eq!(edited.len(), 2880 + 2880);
    assert_eq!(&edited[2880..2980], &[42u8; 100][..]);
}

#[test]
fn cards_are_added_before_end() {
    let mut cards = vec![HeaderCard::new("A", "1", ""), HeaderCard::new("END", "", "")];
    insert_before_end(&mut cards, HeaderCard::new("B", "2", ""));
    let keys: Vec<&str> = cards.iter().map(|c| c.keyword.as_str()).collect();
    assert_eq!(keys, vec!["A", "B", "END"]);
    let mut no_end = vec![HeaderCard::new("A", "1", "")];
    insert_before_end(&mut no_end, HeaderCard::new("B", "2", ""));
    let keys: Vec<&str> = no_end.iter().map(|c| c.keyword.as_str()).collect();
    assert_eq!(keys, vec!["A", "B"]);
}

fn compressed_header(zcmp: Option<&str>) -> HeaderMap {
    let mut m = HeaderMap::new();
    m.insert("ZNAXIS1".to_string(), "2".to_string());
    m.insert("ZNAXIS2".to_string(), "3".to_string());
    m.insert("ZBITPIX".to_string(), "8".to_string());
    if let Some(z) = zcmp {
        m.insert("ZCMPTYPE".to_string(), z.to_string());
    }
    m
}

#[test]
fn compressed_tiles_are_inflated() {
    let pixels = vec![1u8, 2, 3, 4, 5, 6];
    let mut gz = flate2::write::GzEncoder::new(Vec::new(), flate2::Compression::default());
    gz.write_all(&pixels).unwrap();
    let mut table = vec![0u8, 7, 9];
    table.extend(gz.finish().unwrap());
    let img = parse_compressed_fits_image(&compressed_header(None), &table).expect("an image");
    assert_eq!(img.data, pixels);
    assert_eq!((img.nx, img.ny, img.zbitpix), (2, 3, 8));

    let mut z = flate2::write::ZlibEncoder::new(Vec::new(), flate2::Compression::default());
    z.write_all(&pixels).unwrap();
    let table = z.finish().unwrap();
    let img = parse_compressed_fits_image(&compressed_header(Some("zlib_1")), &table).expect("an image");
    assert_eq!(img.data, pixels);
}

#[test]
fn compressed_tile_errors() {
    let mut m = HeaderMap::new();
    assert_eq!(parse_compressed_fits_image(&m, &[]).unwrap_err(), TileError::MissingWidth);
    m.insert("ZNAXIS1".to_string(), "2".to_string());
    assert_eq!(parse_compressed_fits_image(&m, &[]).unwrap_err(), TileError::MissingHeight);
    let plain = compressed_header(Some("RICE_1"));
    assert_eq!(parse_compressed_fits_image(&plain, &[1, 2, 3]).unwrap_err(), TileError::Unsupported);
    let mut gz = flate2::write::GzEncoder::new(Vec::new(), flate2::Compression::default());
    gz.write_all(&[1, 2]).unwrap();
    let short = gz.finish().unwrap();
    assert_eq!(
        parse_compressed_fits_image(&compressed_header(None), &short).unwrap_err(),
        TileError::Unsupported
    );
}

#[test]
fn pixels_are_decoded_by_bitpix() {
    let raw = [0x00u8, 0x01, 0xff, 0xff];
    assert_eq!(read_pixels(&raw, 16, 3), vec![PixelWord::Int(1), PixelWord::Int(-1), PixelWord::Missing]);
    assert_eq!(read_pixels(&[200, 7], 8, 2), vec![PixelWord::Int(200), PixelWord::Int(7)]);
    assert_eq!(read_pixels(&raw, 32, 1), vec![PixelWord::Int(0x0001ffff)]);
    let f = 1.25f32.to_bits().to_be_bytes();
    assert_eq!(read_pixels(&f, -32, 1), vec![PixelWord::Single(1.25f32.to_bits())]);
    let d = (-3.5f64).to_bits().to_be_bytes();
    assert_eq!(read_pixels(&d, -64, 1), vec![PixelWord::Double((-3.5f64).to_bits())]);
    let big = (-2i64).to_be_bytes();
    assert_eq!(read_pixels(&big, 64, 1), vec![PixelWord::Int(-2)]);
    assert_eq!(read_pixels(&raw, 7, 2), vec![PixelWord::Missing, PixelWord::Missing]);
}

#[test]
fn blank_pixels_have_no_value() {
    let px = PixelBlock {
        hdu: 0,
        data: vec![0, 5, 0, 9, 0, 5],
        bitpix: 16,
        count: 3,
        layout: ImageLayout::Spectrum1D,
        blank: Some(5),
        scaled: true,
    };
    assert_eq!(pixel_words(&px), vec![PixelWord::Missing, PixelWord::Int(9), PixelWord::Missing]);
}

#[test]
fn a_long_header_reads_back() {
    let orig = sample_file();
    let doc = parse_fits(&orig).expect("a file");
    let mut cards = vec![
        HeaderCard::new("SIMPLE", "T", ""),
        HeaderCard::new("BITPIX", "8", ""),
        HeaderCard::new("NAXIS", "2", ""),
        HeaderCard::new("NAXIS1", "10", ""),
        HeaderCard::new("NAXIS2", "10", ""),
    ];
    for i in 0..40 {
        cards.push(HeaderCard::new(&format!("KEY{i}"), &format!("{i}"), "a number"));
    }
    cards.push(HeaderCard::new("KEY3", "'three'", ""));
    cards.push(HeaderCard::new("FLAG", "f", "logical"));
    cards.push(HeaderCard::new("HIERARCH ESO DET CHIP1 ID", "'1234'", "Detector ID"));
    cards.push(HeaderCard::new("longkeyword", "3", ""));
    cards.push(HeaderCard::new("COMMENT", "", "written by a test"));
    cards.push(HeaderCard::new("history", "", "edited"));
    let mut updated = BTreeMap::new();
    updated.insert(0usize, cards);
    let edited = build_edited_file(&orig, &doc.hdus, &updated).expect("a file");
    assert_eq!(edited.len(), 2 * 2880 + 2880);
    let back = parse_fits(&edited).expect("a file");
    let h = &back.hdus[0].header_cards;
    assert_eq!(h.get("KEY0"), Some(&"0".to_string()));
    assert_eq!(h.get("KEY39"), Some(&"39".to_string()));
    assert_eq!(h.get("KEY3"), Some(&"three".to_string()));
    assert_eq!(h.get("FLAG"), Some(&"F".to_string()));
    assert_eq!(h.get("KEY40"), None);
    assert_eq!(h.get("HIERARCH ESO DET CHIP1 ID"), Some(&"1234".to_string()));
    assert_eq!(h.get("HIERARCH LONGKEYWORD"), Some(&"3".to_string()));
    assert_eq!(h.get("COMMENT"), Some(&"".to_string()));
    assert_eq!(h.get("HISTORY"), Some(&"".to_string()));
    assert_eq!(back.hdus[0].cards_list[49].comment, "written by a test");
    assert_eq!(back.hdus[0].cards_list.len(), 52);
    assert_eq!(back.pixels[0].as_ref().unwrap().data, vec![42u8; 100]);
}

#[test]
fn tables_show_at_most_500_rows() {
    let mut bytes = header(&[("SIMPLE", "T", ""), ("BITPIX", "8", ""), ("NAXIS", "0", "")]);
    bytes.extend(header(&[
        ("XTENSION", "'TABLE'", ""),
        ("BITPIX", "8", ""),
        ("NAXIS", "2", ""),
        ("NAXIS1", "4", ""),
        ("NAXIS2", "600", ""),
        ("TFIELDS", "1", ""),
        ("TTYPE1", "'N'", ""),
    ]));
    let mut data = Vec::new();
    for i in 0..600 {
        data.extend_from_slice(format!("{:>4}", i).as_bytes());
    }
    bytes.extend(padded_data(data));
    let doc = parse_fits(&bytes).expect("a file");
    let t = doc.tables[1].as_ref().expect("a table");
    assert_eq!(t.columns, vec!["N".to_string()]);
    assert_eq!(t.rows.len(), 500);
    assert_eq!(cell_text(&t.rows[499][0]), "499");
    assert_eq!(doc.hdus[1].name, "EXT_1");
}

#[test]
fn every_edited_header_reads_back() {
    let orig = table_file();
    let doc = parse_fits(&orig).expect("a file");
    let mut updated = BTreeMap::new();
    for h in &doc.hdus {
        let mut cards = h.cards_list.clone();
        insert_before_end(&mut cards, HeaderCard::new("OBSERVER", "Hubble", "who"));
        updated.insert(h.index, cards);
    }
    let edited = build_edited_file(&orig, &doc.hdus, &updated).expect("a file");
    let back = parse_fits(&edited).expect("a file");
    assert_eq!(back.hdus.len(), 2);
    for h in &back.hdus {
        assert_eq!(h.header_cards.get("OBSERVER"), Some(&"Hubble".to_string()));
    }
    assert_eq!(back.hdus[1].header_cards.get("EXTNAME"), Some(&"EVENTS".to_string()));
    let t = back.tables[1].as_ref().expect("a table");
    assert_eq!(cell_text(&t.rows[1][0]), "-2");
}

#[test]
fn inflated_streams_are_chosen() {
    let img = tile_from_inflated(2, 2, 8, Some(vec![1, 2, 3, 4]), Some(vec![9; 4])).expect("an image");
    assert_eq!(img.data, vec![1, 2, 3, 4]);
    let img = tile_from_inflated(2, 2, 16, Some(vec![1, 2]), Some(vec![9, 9, 9, 9, 9])).expect("an image");
    assert_eq!(img.data, vec![9, 9, 9, 9, 9]);
    assert_eq!((img.nx, img.ny, img.zbitpix), (2, 2, 16));
    assert_eq!(tile_from_inflated(2, 2, 8, None, Some(vec![1])).unwrap_err(), TileError::Unsupported);
    assert_eq!(tile_from_inflated(2, 2, 8, None, None).unwrap_err(), TileError::Unsupported);
}

#[test]
fn hdus_are_numbered_and_named() {
    let doc = parse_fits(&table_file()).expect("a file");
    for (i, h) in doc.hdus.iter().enumerate() {
        assert_eq!(h.index, i);
    }
    assert_eq!(doc.hdus[0].name, "PRIMARY");
    assert_eq!(doc.hdus[1].name, "EVENTS");
    assert!(doc.tables[1].is_some() && !doc.hdus[1].is_image);
}
