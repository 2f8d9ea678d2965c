use fitslook::card::HeaderCard;
use fitslook::fits::{parse_fits, BLOCK_SIZE};
use fitslook::hdu::HduInfo;
use fitslook::header_map::HeaderMap;
use fitslook::image::ImageLayout;
use fitslook::spectrum::{algo_key, initial_hdu, is_spectrum, view_mode_for, ViewMode};
use fitslook::uri::{decode_file_uri, decoded_uri_path, percent_decode_bytes};

fn hdu_with(shape: Vec<usize>, keys: &[(&str, &str)]) -> HduInfo {
    let mut m = HeaderMap::new();
    for (k, v) in keys {
        m.insert(k.to_string(), v.to_string());
    }
    HduInfo {
        index: 0,
        name: "PRIMARY".to_string(),
        is_image: true,
        shape,
        header_text: String::new(),
        header_cards: m,
        cards_list: Vec::new(),
        data_offset: 0,
        data_len: 0,
    }
}

#[test]
fn spectra_are_recognised() {
    assert!(is_spectrum(&hdu_with(vec![100, 100], &[("WAVEMIN", "400")])));
    assert!(is_spectrum(&hdu_with(vec![100], &[])));
    assert!(is_spectrum(&hdu_with(vec![100, 2], &[])));
    assert!(!is_spectrum(&hdu_with(vec![100, 10], &[])));
    assert!(!is_spectrum(&hdu_with(vec![100, 100, 3], &[])));
    assert!(!is_spectrum(&hdu_with(vec![], &[])));
}

#[test]
fn view_modes() {
    let table = HduInfo { is_image: false, ..hdu_with(vec![10, 10], &[]) };
    assert_eq!(view_mode_for(&table, None), (ViewMode::Table, false));
    assert_eq!(view_mode_for(&hdu_with(vec![], &[]), None), (ViewMode::Table, false));
    assert_eq!(view_mode_for(&hdu_with(vec![50, 2], &[]), None), (ViewMode::Spectrum, false));
    let cube = ImageLayout::Cube3D { nx: 4, ny: 4, nz: 3 };
    assert_eq!(view_mode_for(&hdu_with(vec![4, 4, 3], &[]), Some(cube)), (ViewMode::Image, true));
    let flat = ImageLayout::Image2D { nx: 20, ny: 20 };
    assert_eq!(view_mode_for(&hdu_with(vec![20, 20], &[]), Some(flat)), (ViewMode::Image, false));
    assert_eq!(
        view_mode_for(&hdu_with(vec![20, 1, 1], &[]), Some(ImageLayout::Spectrum1D)),
        (ViewMode::Spectrum, false)
    );
    assert_eq!(view_mode_for(&hdu_with(vec![20, 20], &[]), None), (ViewMode::Image, false));
}

fn header(cards: &[(&str, &str)]) -> Vec<u8> {
    let mut h = Vec::new();
    for (k, v) in cards {
        h.extend_from_slice(HeaderCard::format_card(k, v, "").as_bytes());
    }
    h.extend_from_slice(HeaderCard::format_card("END", "", "").as_bytes());
    let pad = BLOCK_SIZE - (h.len() % BLOCK_SIZE);
    h.resize(h.len() + pad, b' ');
    h
}

fn image_ext(nx: &str, ny: &str, extra: &[(&str, &str)]) -> Vec<u8> {
    let mut cards = vec![
        ("XTENSION", "'IMAGE'"),
        ("BITPIX", "8"),
        ("NAXIS", "2"),
        ("NAXIS1", nx),
        ("NAXIS2", ny),
    ];
    cards.extend_from_slice(extra);
    let mut bytes = header(&cards);
    let n: usize = nx.parse::<usize>().unwrap() * ny.parse::<usize>().unwrap();
    let mut data = vec![1u8; n];
    data.resize(n.div_ceil(BLOCK_SIZE) * BLOCK_SIZE, 0);
    bytes.extend(data);
    bytes
}

#[test]
fn the_first_hdu_shown() {
    let primary = header(&[("SIMPLE", "T"), ("BITPIX", "8"), ("NAXIS", "0")]);

    let mut file = primary.clone();
    file.extend(image_ext("20", "20", &[]));
    file.extend(image_ext("30", "30", &[]));
    let doc = parse_fits(&file).expect("a file");
    assert_eq!(initial_hdu(&doc), 1);

    let mut file = primary.clone();
    file.extend(image_ext("20", "20", &[]));
    file.extend(image_ext("50", "2", &[]));
    file.extend(image_ext("30", "30", &[("WAVEMIN", "400")]));
    file.extend(image_ext("40", "40", &[]));
    let doc = parse_fits(&file).expect("a file");
    assert_eq!(initial_hdu(&doc), 3);

    let doc = parse_fits(&primary).expect("a file");
    assert_eq!(initial_hdu(&doc), 0);

    let mut file = primary.clone();
    file.extend(image_ext("30", "30", &[("WAVEMIN", "400")]));
    file.extend(image_ext("50", "2", &[]));
    file.extend(image_ext("40", "40", &[("WAVEMIN", "500")]));
    let doc = parse_fits(&file).expect("a file");
    assert_eq!(initial_hdu(&doc), 3);

    let mut file = primary.clone();
    file.extend(image_ext("20", "20", &[]));
    file.extend(image_ext("50", "2", &[]));
    let doc = parse_fits(&file).expect("a file");
    assert_eq!(initial_hdu(&doc), 1);
}

#[test]
fn stretch_keys() {
    assert_eq!(algo_key("Linear (ZScale)"), "Linear");
    assert_eq!(algo_key("Log"), "Log");
    assert_eq!(algo_key("Sqrt"), "Sqrt");
    assert_eq!(algo_key("Asinh"), "Asinh");
    assert_eq!(algo_key("Power"), "Power");
    assert_eq!(algo_key("log"), "Linear");
    assert_eq!(algo_key(""), "Linear");
}

#[test]
fn file_uris_become_paths() {
    assert_eq!(decode_file_uri("file:///tmp/data/m31.fits"), "/tmp/data/m31.fits");
    assert_eq!(decode_file_uri("file:///tmp/my%20file.fits"), "/tmp/my file.fits");
    assert_eq!(decode_file_uri("file:///tmp/caf%C3%A9.fits"), "/tmp/café.fits");
    assert_eq!(decode_file_uri("/home/user/a%20b.fits"), "/home/user/a%20b.fits");
    assert_eq!(decode_file_uri("relative.fits"), "relative.fits");
}

#[test]
fn uri_paths_from_parse_results() {
    assert_eq!(decoded_uri_path("file://bad uri", None), "bad uri");
    assert_eq!(decoded_uri_path("file:///x", Some("/a%2Fb%zz%4".to_string())), "/a/b%zz%4");
    assert_eq!(decoded_uri_path("/plain", Some("/ignored".to_string())), "/plain");
    assert_eq!(decoded_uri_path("file:///x", Some("/%FF".to_string())), "/\u{fffd}");
}

#[test]
fn percent_decoding() {
    assert_eq!(percent_decode_bytes(b"a%41%6a%"), b"aAj%".to_vec());
    assert_eq!(percent_decode_bytes(b"%4"), b"%4".to_vec());
    assert_eq!(percent_decode_bytes(b"%g1"), b"%g1".to_vec());
}
