use bc4py_plotter::utils::{addr2params, addr2ver_identifier, params2bech, params_from_parts, Bech32Error};


/// The bech32 text of (hrp, data) as the bech32 crate writes it.
fn encode(hrp: &str, data: Vec<u8>) -> String {
    bech32::Bech32::new_check_data(hrp.to_string(), data).unwrap().to_string()
}

#[test]
fn bip173_vector_with_all_data_values() {
    let text = "abcdef1qpzry9x8gf2tvdw0s3jn54khce6mua7lmqqqxw";
    // data values 0..=31; version 0, then 31 five-bit values read back as bytes
    // fail the padding check (155 bits do not end on a byte boundary with zero padding)
    let r = addr2params(text);
    assert_eq!(r.unwrap_err(), Bech32Error::InvalidPadding);
}

#[test]
fn address_params_round_trip_through_params2bech() {
    let identifier: Vec<u8> = (1u8..=20).collect();
    let built = params2bech("test", 1, &identifier).unwrap();
    assert_eq!(built.hrp, "test");
    assert_eq!(built.data[0], 1);
    let text = encode(&built.hrp, built.data.clone());
    let (hrp, ver, id) = addr2params(&text).unwrap();
    assert_eq!(hrp, "test");
    assert_eq!(ver, 1);
    assert_eq!(id, identifier);
}

#[test]
fn ver_identifier_is_version_then_identifier() {
    let identifier: Vec<u8> = vec![0xff, 0x00, 0x10, 0x20, 0x30, 0x40, 0x50, 0x60, 0x70, 0x80, 0x90, 0xa0,
        0xb0, 0xc0, 0xd0, 0xe0, 0xf0, 0x01, 0x02, 0x03];
    let built = params2bech("bc", 0, &identifier).unwrap();
    let text = encode(&built.hrp, built.data.clone());
    let seed = addr2ver_identifier(&text).unwrap();
    let mut expected = vec![0u8];
    expected.extend_from_slice(&identifier);
    assert_eq!(seed, expected);
    assert_eq!(seed.len(), 21);
}

#[test]
fn params2bech_regroups_bytes_into_five_bits() {
    let built = params2bech("a", 3, &[0xff]).unwrap();
    assert_eq!(built.data, vec![3, 0x1f, 0x1c]);
}

#[test]
fn params2bech_refuses_a_large_version() {
    assert_eq!(params2bech("bc", 32, &[1, 2]).unwrap_err(), Bech32Error::InvalidData(32));
}

#[test]
fn params2bech_refuses_an_empty_hrp() {
    assert_eq!(params2bech("", 0, &[1, 2]).unwrap_err(), Bech32Error::InvalidLength);
}

#[test]
fn params2bech_checks_data_before_the_hrp() {
    assert_eq!(params2bech("", 40, &[1]).unwrap_err(), Bech32Error::InvalidData(40));
}

#[test]
fn empty_data_has_no_version() {
    let text = "A12UEL5L";
    assert_eq!(addr2params(text).unwrap_err(), Bech32Error::InvalidLength);
    assert_eq!(addr2ver_identifier(text).unwrap_err(), "invalid length");
    let (hrp, data) = (String::from("a"), Vec::new());
    assert_eq!(params_from_parts(hrp, data).unwrap_err(), Bech32Error::InvalidLength);
}

#[test]
fn params_from_parts_reads_version_and_identifier() {
    let (hrp, ver, id) = params_from_parts(String::from("x"), vec![5, 0x1f, 0x1c]).unwrap();
    assert_eq!(hrp, "x");
    assert_eq!(ver, 5);
    assert_eq!(id, vec![0xff]);
}

#[test]
fn params_from_parts_reports_bad_padding() {
    assert_eq!(params_from_parts(String::from("x"), vec![5, 0x1f, 0x1d]).unwrap_err(), Bech32Error::InvalidPadding);
}

#[test]
fn error_texts() {
    assert_eq!(addr2ver_identifier("pzry9x0s0muk").unwrap_err(), "missing human-readable separator, \"1\"");
    assert_eq!(addr2ver_identifier("A1G7SGD8").unwrap_err(), "invalid checksum");
    assert_eq!(addr2ver_identifier("x").unwrap_err(), "invalid length");
    assert_eq!(addr2ver_identifier("1pzry9x0s0muk").unwrap_err(), "invalid length");
    assert_eq!(addr2ver_identifier("a1qqqqqqbqqqqqq").unwrap_err(), "invalid character (code=b)");
    assert_eq!(addr2ver_identifier("A1Qqqqqqqqqq").unwrap_err(), "mixed-case strings not allowed");
}

#[test]
fn decode_errors_are_reported() {
    assert_eq!(addr2params("pzry9x0s0muk").unwrap_err(), Bech32Error::MissingSeparator);
    assert_eq!(addr2params("A1G7SGD8").unwrap_err(), Bech32Error::InvalidChecksum);
    assert_eq!(addr2params("a1qqqqqqbqqqqqq").unwrap_err(), Bech32Error::InvalidChar('b'));
}

#[test]
fn to_text_matches_the_crate_display() {
    let built = params2bech("bech32", 0, &[0xb4, 0xff, 0xa5]).unwrap();
    assert_eq!(built.to_text(), encode("bech32", built.data.clone()));
    let raw = bc4py_plotter::utils::Bech32Address { hrp: String::from("bech32"), data: vec![0, 1, 2] };
    assert_eq!(raw.to_text(), "bech321qpz4nc4pe");
}

#[test]
fn text_round_trips() {
    for (hrp, ver, id) in [("bc", 0u8, (1u8..=20).collect::<Vec<u8>>()), ("tb", 31, vec![0xff; 32]), ("x", 5, vec![])] {
        let built = params2bech(hrp, ver, &id).unwrap();
        assert_eq!(built.data.len(), 1 + (id.len() * 8 + 4) / 5);
        let text = built.to_text();
        assert_eq!(addr2params(&text).unwrap(), (hrp.to_string(), ver, id.clone()));
        let mut seed = vec![ver];
        seed.extend_from_slice(&id);
        assert_eq!(addr2ver_identifier(&text).unwrap(), seed);
    }
}

#[test]
fn case_does_not_matter() {
    let built = params2bech("bc", 3, &[9, 8, 7, 6, 5]).unwrap();
    let text = built.to_text();
    assert_eq!(addr2ver_identifier(&text.to_ascii_uppercase()).ok(), addr2ver_identifier(&text).ok());
    assert!(addr2ver_identifier(&text.to_ascii_uppercase()).is_ok());
    let bad = "a1qqqqqqbqqqqqq";
    assert_eq!(addr2ver_identifier(&bad.to_ascii_uppercase()).ok(), addr2ver_identifier(bad).ok());
}

#[test]
fn ver_identifier_bounds() {
    let built = params2bech("a", 31, &[0xab; 50]).unwrap();
    let text = built.to_text();
    assert!(text.len() <= 90);
    let seed = addr2ver_identifier(&text).unwrap();
    assert_eq!(seed.len(), 51);
    assert!(seed[0] < 32);
}
