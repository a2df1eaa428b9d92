use dted::{
    bytes_to_num, parse_dted_file, parse_dted_header, to_i16, Angle, DtedData, Error,
    ParseReason, RECORDS_START,
};

fn encode_sm(e: i16) -> u16 {
    if e < 0 {
        0x8000 | ((-(e as i32)) as u16)
    } else {
        e as u16
    }
}

fn header_bytes(
    lon: &str,
    lat: &str,
    lon_int: u16,
    lat_int: u16,
    acc: &str,
    n_lon: u16,
    n_lat: u16,
) -> Vec<u8> {
    let mut h = Vec::new();
    h.extend_from_slice(b"UHL1");
    h.extend_from_slice(lon.as_bytes());
    h.extend_from_slice(lat.as_bytes());
    h.extend_from_slice(format!("{:04}", lon_int).as_bytes());
    h.extend_from_slice(format!("{:04}", lat_int).as_bytes());
    h.extend_from_slice(acc.as_bytes());
    h.extend_from_slice(&[b' '; 15]);
    h.extend_from_slice(format!("{:04}", n_lon).as_bytes());
    h.extend_from_slice(format!("{:04}", n_lat).as_bytes());
    h.extend_from_slice(&[b' '; 25]);
    assert_eq!(h.len(), 80);
    h
}

fn sample_elev(i: usize, j: usize) -> i16 {
    ((i * 31 + j * 17) % 3000) as i16 - 1000
}

fn file_bytes(header: Vec<u8>, n_lon: usize, n_lat: usize, elev: fn(usize, usize) -> i16) -> Vec<u8> {
    let mut b = header;
    b.resize(RECORDS_START, b'0');
    for i in 0..n_lon {
        b.push(0xaa);
        b.push((i >> 16) as u8);
        b.push((i >> 8) as u8);
        b.push(i as u8);
        b.extend_from_slice(&(i as u16).to_be_bytes());
        b.extend_from_slice(&0u16.to_be_bytes());
        for j in 0..n_lat {
            b.extend_from_slice(&encode_sm(elev(i, j)).to_be_bytes());
        }
        b.extend_from_slice(&[0, 0, 0, 0]);
    }
    b
}

fn full_tile() -> Vec<u8> {
    let h = header_bytes("0150000E", "0420000N", 10, 10, "NA  ", 3601, 3601);
    file_bytes(h, 3601, 3601, sample_elev)
}

fn small_tile(elev: fn(usize, usize) -> i16) -> Vec<u8> {
    let h = header_bytes("0150000E", "0420000N", 20, 10, "0025", 3, 2);
    file_bytes(h, 3, 2, elev)
}

fn small_elev(i: usize, j: usize) -> i16 {
    [[100, 200], [-50, 400], [7, -8]][i][j]
}

#[test]
fn test_input_data() {
    let data = parse_dted_file(&full_tile()).unwrap();
    assert_eq!(data.header.origin_lat.deg, 42);
    assert_eq!(data.header.origin_lat.min, 0);
    assert_eq!(data.header.origin_lat.sec, 0);
    assert_eq!(data.header.origin_lon.deg, 15);
    assert_eq!(data.header.origin_lon.min, 0);
    assert_eq!(data.header.origin_lon.sec, 0);
    assert_eq!(data.header.lat_interval, 10);
    assert_eq!(data.header.lon_interval, 10);
    assert_eq!(data.header.num_lat_lines, 3601);
    assert_eq!(data.header.num_lon_lines, 3601);
}

#[test]
fn test_read_header_only() {
    let bytes = full_tile();
    let header = parse_dted_header(&bytes[..80]).unwrap();
    assert_eq!(header.origin_lat.deg, 42);
    assert_eq!(header.origin_lat.min, 0);
    assert_eq!(header.origin_lat.sec, 0);
    assert_eq!(header.origin_lon.deg, 15);
    assert_eq!(header.origin_lon.min, 0);
    assert_eq!(header.origin_lon.sec, 0);
    assert_eq!(header.lat_interval, 10);
    assert_eq!(header.lon_interval, 10);
    assert_eq!(header.num_lat_lines, 3601);
    assert_eq!(header.num_lon_lines, 3601);
}

#[test]
fn test_iterator() {
    let bytes = full_tile();
    let data_1 = parse_dted_file(&bytes).unwrap();
    let data_2 = parse_dted_file(&bytes).unwrap();
    let mut posts = data_1.into_iter();
    let mut count: usize = 0;
    while let Some((lat, lon, elev)) = posts.next() {
        let got = data_2.get_elev(lat, lon).unwrap();
        let elev_get = (got.numer as f64 / got.denom as f64).round();
        assert_eq!(elev as f64, elev_get);
        count += 1;
    }
    assert_eq!(count, 3601 * 3601);
}

#[test]
fn signed_magnitude_is_not_twos_complement() {
    assert_eq!(to_i16(0x0001), 1);
    assert_eq!(to_i16(0x7fff), 32767);
    assert_eq!(to_i16(0x8000), 0);
    assert_eq!(to_i16(0x8001), -1);
    assert_eq!(to_i16(0xffff), -32767);
    assert_eq!(to_i16(0x83e8), -1000);
}

#[test]
fn digits_are_read_as_decimal() {
    assert_eq!(bytes_to_num(b"x0420", 1, 4), Some(420));
    assert_eq!(bytes_to_num(b"9", 0, 1), Some(9));
    assert_eq!(bytes_to_num(b"", 0, 0), Some(0));
    assert_eq!(bytes_to_num(b"04a0", 0, 4), None);
    assert_eq!(bytes_to_num(b"999999999", 0, 9), Some(999_999_999));
    assert_eq!(bytes_to_num(b"012345678", 0, 9), Some(12_345_678));
    assert_eq!(bytes_to_num(b"1234567x9", 0, 9), None);
    // reading "12345" then "6789" and joining agrees with reading all nine
    let a = bytes_to_num(b"12345", 0, 5).unwrap();
    let c = bytes_to_num(b"6789", 0, 4).unwrap();
    assert_eq!(bytes_to_num(b"123456789", 0, 9), Some(a * 10_000 + c));
    assert_eq!(bytes_to_num(b"/", 0, 1), None);
}

#[test]
fn accuracy_field() {
    let h = header_bytes("0150000E", "0420000N", 10, 10, "NA  ", 2, 2);
    assert_eq!(parse_dted_header(&h).unwrap().accuracy, None);
    let h = header_bytes("0150000E", "0420000N", 10, 10, "0025", 2, 2);
    assert_eq!(parse_dted_header(&h).unwrap().accuracy, Some(25));
    let h = header_bytes("0150000E", "0420000N", 10, 10, "00x5", 2, 2);
    assert_eq!(parse_dted_header(&h).unwrap_err(), Error::ParseError(ParseReason::BadDigit, 28));
}

#[test]
fn southern_and_western_angles() {
    let h = header_bytes("1203015W", "0423005S", 10, 10, "NA  ", 2, 2);
    let header = parse_dted_header(&h).unwrap();
    assert_eq!(header.origin_lon, Angle { deg: -120, min: 30, sec: 15 });
    assert_eq!(header.origin_lat, Angle { deg: -42, min: 30, sec: 5 });
    assert_eq!(header.origin_lon.to_tenths(), -(120 * 36000 + 30 * 600 + 150));
    assert_eq!(header.origin_lat.to_tenths(), -(42 * 36000 + 30 * 600 + 50));
}

#[test]
fn wrong_tag_is_refused() {
    let mut h = header_bytes("0150000E", "0420000N", 10, 10, "NA  ", 2, 2);
    h[3] = b'2';
    let e = Error::ParseError(ParseReason::WrongTag, 0);
    assert_eq!(parse_dted_header(&h).unwrap_err(), e);
    let mut b = small_tile(small_elev);
    b[0] = b'X';
    assert_eq!(parse_dted_file(&b).unwrap_err(), e);
}

#[test]
fn short_header_is_truncated() {
    let h = header_bytes("0150000E", "0420000N", 10, 10, "NA  ", 2, 2);
    assert_eq!(
        parse_dted_header(&h[..79]).unwrap_err(),
        Error::ParseError(ParseReason::Truncated, 79)
    );
    assert_eq!(
        parse_dted_header(b"XYZ1").unwrap_err(),
        Error::ParseError(ParseReason::Truncated, 4)
    );
}

#[test]
fn truncated_record_is_refused() {
    let b = small_tile(small_elev);
    assert_eq!(b.len(), RECORDS_START + 3 * 16);
    let cut = RECORDS_START + 16 + 6;
    assert_eq!(
        parse_dted_file(&b[..cut]).unwrap_err(),
        Error::ParseError(ParseReason::Truncated, cut)
    );
    assert_eq!(
        parse_dted_file(&b[..b.len() - 1]).unwrap_err(),
        Error::ParseError(ParseReason::Truncated, b.len() - 1)
    );
}

#[test]
fn bad_fields_are_located() {
    let h = header_bytes("0150000E", "0420000N", 10, 10, "NA  ", 2, 2);
    let mut b = h.clone();
    b[21] = b'-';
    assert_eq!(parse_dted_header(&b).unwrap_err(), Error::ParseError(ParseReason::BadDigit, 20));
    let mut b = h.clone();
    b[11] = b'Q';
    assert_eq!(
        parse_dted_header(&b).unwrap_err(),
        Error::ParseError(ParseReason::BadHemisphere, 11)
    );
    let mut b = h.clone();
    b[17] = b'a';
    assert_eq!(parse_dted_header(&b).unwrap_err(), Error::ParseError(ParseReason::BadDigit, 17));
}

#[test]
fn earlier_bad_sentinel_beats_truncation() {
    let mut b = small_tile(small_elev);
    b[RECORDS_START + 16] = 0x00;
    let cut = RECORDS_START + 2 * 16 + 3;
    assert_eq!(
        parse_dted_file(&b[..cut]).unwrap_err(),
        Error::ParseError(ParseReason::BadSentinel, RECORDS_START + 16)
    );
}

#[test]
fn skipped_blocks_must_be_present() {
    let b = small_tile(small_elev);
    assert_eq!(
        parse_dted_file(&b[..1000]).unwrap_err(),
        Error::ParseError(ParseReason::Truncated, 1000)
    );
}

#[test]
fn bad_sentinel_is_located() {
    let mut b = small_tile(small_elev);
    b[RECORDS_START + 16] = 0xab;
    b[RECORDS_START + 32] = 0x00;
    assert_eq!(
        parse_dted_file(&b).unwrap_err(),
        Error::ParseError(ParseReason::BadSentinel, RECORDS_START + 16)
    );
}

#[test]
fn records_are_decoded() {
    let data = parse_dted_file(&small_tile(small_elev)).unwrap();
    assert_eq!(data.records.len(), 3);
    assert_eq!(data.records[1].block_count, 1);
    assert_eq!(data.records[2].lon_count, 2);
    assert_eq!(data.records[1].elevations, vec![-50, 400]);
    assert_eq!(data.records[2].elevations, vec![7, -8]);
    assert_eq!(data.header.accuracy, Some(25));
}

fn small_grid() -> DtedData {
    parse_dted_file(&small_tile(small_elev)).unwrap()
}

#[test]
fn bounds_in_tenths_of_arcsecond() {
    let d = small_grid();
    assert_eq!(d.min_lat(), 42 * 36000);
    assert_eq!(d.min_lon(), 15 * 36000);
    assert_eq!(d.lat_interval(), 10);
    assert_eq!(d.lon_interval(), 20);
    assert_eq!(d.max_lat(), 42 * 36000 + 10);
    assert_eq!(d.max_lon(), 15 * 36000 + 40);
}

#[test]
fn elevation_at_posts_is_exact() {
    let d = small_grid();
    for i in 0..3 {
        for j in 0..2 {
            let lat = d.min_lat() + j as i64 * 10;
            let lon = d.min_lon() + i as i64 * 20;
            let v = d.get_elev(lat, lon).unwrap();
            assert_eq!(v.denom, 200);
            assert_eq!(v.numer, small_elev(i, j) as i64 * 200);
        }
    }
}

#[test]
fn elevation_between_posts_is_bilinear() {
    let d = small_grid();
    let v = d.get_elev(d.min_lat() + 5, d.min_lon() + 10).unwrap();
    // (100 + 200 - 50 + 400) / 4 = 162.5
    assert_eq!(v.numer * 2, 325 * v.denom);
    let v = d.get_elev(d.min_lat() + 2, d.min_lon() + 30).unwrap();
    // lon half way between lines 1 and 2, lat a fifth of the way north
    let expected = (-50.0 * 0.8 + 400.0 * 0.2) * 0.5 + (7.0 * 0.8 - 8.0 * 0.2) * 0.5;
    assert_eq!(v.numer as f64 / v.denom as f64, expected);
}

#[test]
fn outside_the_box_is_not_found() {
    let d = small_grid();
    assert_eq!(d.get_elev(d.min_lat() - 1, d.min_lon()), None);
    assert_eq!(d.get_elev(d.max_lat() + 1, d.min_lon()), None);
    assert_eq!(d.get_elev(d.min_lat(), d.min_lon() - 1), None);
    assert_eq!(d.get_elev(d.min_lat(), d.max_lon() + 1), None);
    assert_eq!(d.get_elev(i64::MIN, i64::MAX), None);
}

#[test]
fn north_east_corner_is_defined() {
    let d = small_grid();
    let v = d.get_elev(d.max_lat(), d.max_lon()).unwrap();
    assert_eq!(v.numer, -8 * v.denom);
}

#[test]
fn traversal_is_longitude_major() {
    let d = small_grid();
    let mut it = d.into_iter();
    let mut seen = Vec::new();
    while let Some(p) = it.next() {
        seen.push(p);
    }
    let base_lat = 42 * 36000;
    let base_lon = 15 * 36000;
    assert_eq!(
        seen,
        vec![
            (base_lat, base_lon, 100),
            (base_lat + 10, base_lon, 200),
            (base_lat, base_lon + 20, -50),
            (base_lat + 10, base_lon + 20, 400),
            (base_lat, base_lon + 40, 7),
            (base_lat + 10, base_lon + 40, -8),
        ]
    );
    assert_eq!(it.next(), None);
}

#[test]
fn empty_lines_give_no_posts() {
    let h = header_bytes("0150000E", "0420000N", 10, 10, "NA  ", 4, 0);
    let d = parse_dted_file(&file_bytes(h, 4, 0, sample_elev)).unwrap();
    assert_eq!(d.records.len(), 4);
    assert!(!d.is_queryable());
    assert!(d.is_rectangular());
    assert_eq!(d.into_iter().next(), None);
}

#[test]
fn zero_spacing_grid_has_no_interpolation() {
    let h = header_bytes("0150000E", "0420000N", 0, 10, "NA  ", 2, 2);
    let d = parse_dted_file(&file_bytes(h, 2, 2, sample_elev)).unwrap();
    assert!(!d.is_queryable());
    assert_eq!(d.get_elev(d.min_lat(), d.min_lon()), None);
    assert_eq!(d.get_elev(d.min_lat(), d.min_lon() - 1), None);
}

#[test]
fn single_line_grid_is_not_queryable() {
    let h = header_bytes("0150000E", "0420000N", 10, 10, "NA  ", 1, 3);
    let d = parse_dted_file(&file_bytes(h, 1, 3, sample_elev)).unwrap();
    assert!(d.is_rectangular());
    assert!(!d.is_queryable());
    assert!(small_grid().is_queryable());
    assert_eq!(d.max_lon(), d.min_lon());
    assert_eq!(d.get_elev(d.min_lat(), d.min_lon()), None);
    assert_eq!(d.get_elev(d.min_lat(), d.min_lon() + 1), None);
    assert_eq!(d.get_elev(d.max_lat() + 1, d.min_lon()), None);
}
